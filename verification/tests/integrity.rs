use hive_asar::header::{Algorithm, FileMetadata, FilePosition, Integrity};
use hive_asar::{IntegrityCheck, IntegrityProgress};
use sha2::{Digest, Sha256};

fn sha(data: &[u8]) -> hive_asar::header::Hash {
    hive_asar::header::Hash::from(Sha256::digest(data).to_vec())
}

fn metadata_for(content: &[u8], block_size: u32) -> FileMetadata {
    let blocks = content.chunks(block_size as usize).map(sha).collect();
    FileMetadata {
        pos: FilePosition::Offset(0),
        size: content.len() as u64,
        executable: false,
        integrity: Some(Integrity { algorithm: Algorithm::SHA256, hash: sha(content), block_size, blocks }),
    }
}

/// Runs the check as a reader of `content` would.
fn run(metadata: &FileMetadata, content: &[u8]) -> bool {
    let mut pos = 0usize;
    let mut progress = IntegrityCheck::start(metadata);
    loop {
        match progress {
            IntegrityProgress::Done(ok) => return ok,
            IntegrityProgress::Continue(check) => {
                let n = check.block_size() as usize;
                let end = std::cmp::min(pos + n, content.len());
                let block = &content[pos..end];
                pos = end;
                progress = check.feed(block);
            }
        }
    }
}

#[test]
fn no_integrity_passes() {
    let m = FileMetadata { pos: FilePosition::Offset(0), size: 3, executable: false, integrity: None };
    assert!(matches!(IntegrityCheck::start(&m), IntegrityProgress::Done(true)));
}

#[test]
fn matching_content_passes() {
    let content: Vec<u8> = (0..100u8).collect();
    let m = metadata_for(&content, 16);
    assert_eq!(m.integrity.as_ref().unwrap().blocks.len(), 7);
    assert!(run(&m, &content));
}

#[test]
fn exact_multiple_of_block_size_passes() {
    let content = vec![7u8; 64];
    let m = metadata_for(&content, 16);
    assert!(run(&m, &content));
}

#[test]
fn changed_byte_fails() {
    let content: Vec<u8> = (0..100u8).collect();
    let m = metadata_for(&content, 16);
    let mut other = content.clone();
    other[50] ^= 1;
    assert!(!run(&m, &other));
}

#[test]
fn truncated_content_fails() {
    let content: Vec<u8> = (0..100u8).collect();
    let m = metadata_for(&content, 16);
    assert!(!run(&m, &content[..90]));
}

#[test]
fn wrong_size_fails() {
    let content: Vec<u8> = (0..40u8).collect();
    let mut m = metadata_for(&content, 16);
    m.size = 41;
    assert!(!run(&m, &content));
}

#[test]
fn wrong_whole_hash_fails() {
    let content: Vec<u8> = (0..40u8).collect();
    let mut m = metadata_for(&content, 16);
    m.integrity.as_mut().unwrap().hash = sha(b"other");
    assert!(!run(&m, &content));
}

#[test]
fn no_blocks_decided_on_size_and_hash() {
    let m = metadata_for(&[], 16);
    assert!(m.integrity.as_ref().unwrap().blocks.is_empty());
    assert!(matches!(IntegrityCheck::start(&m), IntegrityProgress::Done(true)));
    let mut bad = metadata_for(&[], 16);
    bad.size = 1;
    assert!(matches!(IntegrityCheck::start(&bad), IntegrityProgress::Done(false)));
}

#[test]
fn empty_block_fails() {
    let content = vec![1u8; 10];
    let m = metadata_for(&content, 16);
    match IntegrityCheck::start(&m) {
        IntegrityProgress::Continue(check) => {
            assert_eq!(check.bytes_read(), 0);
            assert!(matches!(check.feed(&[]), IntegrityProgress::Done(false)));
        }
        IntegrityProgress::Done(_) => panic!("expected a block to be read"),
    }
}

#[test]
fn counts_bytes_read() {
    let content: Vec<u8> = (0..40u8).collect();
    let m = metadata_for(&content, 16);
    match IntegrityCheck::start(&m) {
        IntegrityProgress::Continue(check) => match check.feed(&content[..16]) {
            IntegrityProgress::Continue(next) => assert_eq!(next.bytes_read(), 16),
            IntegrityProgress::Done(_) => panic!("expected more blocks"),
        },
        IntegrityProgress::Done(_) => panic!("expected a block to be read"),
    }
}
