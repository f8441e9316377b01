# hive_asar

Reading Electron's asar archive format, with the archive logic verified.

An asar archive starts with 16 bytes, the last four of which give the size
of a JSON header; the header is a tree of directories and files, and each
file records the offset of its bytes after the header (or that it is stored
outside the archive), its size, and optionally SHA-256 hashes of its blocks
and of the whole.

Layout:

- `src/` — the library, verified:
  - `lib.rs`: splitting an archive path into the segments that name entries,
    with `..` and `.` resolved;
  - `header.rs`: the header tree (`Entry`, `Directory`, `FileMetadata`,
    `FilePosition`, `Integrity`, `Hash`), lookup of segments, and the fields
    that record a file's position;
  - `archive.rs`: where the files' bytes begin, finding a file by path, and
    the arithmetic of seeking inside one file;
  - `extract.rs`: the order of the steps that extract an archive;
  - `integrity.rs`: checking a file's blocks and whole hash, block by block;
  - `digest.rs`: SHA-256 from the `sha2` crate;
  - `strings.rs`: string equality and decimal `u64` text.
- `app/` — asynchronous I/O with Tokio, the JSON form of the header with
  serde, and the file-system parts (opening archives, extracting).
- `tests/` — tests of the library.
