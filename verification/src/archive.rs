//! An archive: where the files' bytes begin, the header, and a reader of the
//! archive's bytes; and one file of it, with the arithmetic of seeking inside
//! that file.

use vstd::prelude::*;

use crate::error::ArchiveError;
use crate::header::{Directory, Entry, FileMetadata, FileMetadataView, FilePosition};
use crate::{is_entry_name, spec_split_path, split_path, str_views};

verus! {

/// What reading `path` from an archive with header `header`, whose file
/// bytes begin at `offset`, gives: the entry that the normalised segments of
/// `path` name must be a file stored in the archive.
pub open spec fn read_outcome(header: Directory, offset: u64, path: Seq<char>) -> Result<
    (u64, FileMetadataView),
    ArchiveError,
> {
    match header.spec_search(spec_split_path(path)) {
        None => Err(ArchiveError::NotFound),
        Some(Entry::Directory(_)) => Err(ArchiveError::NotAFile),
        Some(Entry::File(m)) => match m.pos {
            FilePosition::Unpacked => Err(ArchiveError::UnpackedUnsupported),
            FilePosition::Offset(_) => Ok((offset, m@)),
        },
    }
}

/// A position to seek to, as `std::io::SeekFrom` gives it: an offset from
/// the start, from the end, or from the current position.
#[derive(Debug, Clone, Copy, PartialEq, Eq, Structural)]
pub enum SeekPosition {
    /// This many bytes from the start.
    Start(u64),
    /// This many bytes from the end (negative: before the end).
    End(i64),
    /// This many bytes from the current position.
    Current(i64),
}

/// Whether computing where the files begin after a header of `header_size`
/// bytes stays within `u32`.
pub open spec fn header_offset_fits(header_size: u32) -> bool {
    if header_size % 4 == 0 {
        header_size + 16 <= u32::MAX
    } else {
        header_size + 20 <= u32::MAX
    }
}

/// Whether [`header_offset`] can be computed for `header_size`.
pub fn header_offset_in_range(header_size: u32) -> (b: bool)
    ensures
        b == header_offset_fits(header_size),
{
    if header_size % 4 == 0 {
        header_size <= u32::MAX - 16
    } else {
        header_size <= u32::MAX - 20
    }
}

/// Where the files' bytes begin in an archive whose header takes
/// `header_size` bytes: after the 16 bytes that precede the header and the
/// header itself, at the next multiple of 4.
pub open spec fn spec_header_offset(header_size: u32) -> u64 {
    if header_size % 4 == 0 {
        (header_size + 16) as u64
    } else {
        (header_size + 16 + 4 - header_size % 4) as u64
    }
}

/// Computes where the files' bytes begin after a header of `header_size` bytes.
pub fn header_offset(header_size: u32) -> (r: u64)
    requires
        header_offset_fits(header_size),
    ensures
        r == spec_header_offset(header_size),
        r % 4 == 0,
        header_size + 16 <= r < header_size + 20,
{
    let r = header_size % 4;
    if r == 0 {
        (header_size + 16) as u64
    } else {
        (header_size + 16 + 4 - r) as u64
    }
}

/// Generic asar archive: the header, where the files' bytes begin, and the
/// reader that holds the archive's bytes.
#[derive(Debug)]
pub struct Archive<R> {
    offset: u64,
    header: Directory,
    reader: R,
}

/// A file of an archive: its metadata, and where the archive's file bytes
/// begin.
#[derive(Debug)]
pub struct File {
    offset: u64,
    metadata: FileMetadata,
}

impl<R> Archive<R> {
    /// Where the files' bytes begin.
    pub closed spec fn spec_offset(&self) -> u64 {
        self.offset
    }

    /// The header.
    pub closed spec fn spec_header(&self) -> Directory {
        self.header
    }

    /// The reader of the archive's bytes.
    pub closed spec fn spec_reader(&self) -> R {
        self.reader
    }

    /// What reading `path` gives: an error, or where the archive's file
    /// bytes begin and the metadata of the file found.
    pub open spec fn spec_read(&self, path: Seq<char>) -> Result<(u64, FileMetadataView), ArchiveError> {
        read_outcome(self.spec_header(), self.spec_offset(), path)
    }

    /// Builds the archive from the size of its header, the header, and the
    /// reader of its bytes.
    pub fn new(header_size: u32, header: Directory, reader: R) -> (a: Archive<R>)
        requires
            header_offset_fits(header_size),
        ensures
            a.spec_offset() == spec_header_offset(header_size),
            a.spec_offset() % 4 == 0,
            header_size + 16 <= a.spec_offset() < header_size + 20,
            a.spec_header() == header,
            a.spec_reader() == reader,
    {
        Archive { offset: header_offset(header_size), header, reader }
    }

    /// Where the files' bytes begin.
    pub fn offset(&self) -> (r: u64)
        ensures
            r == self.spec_offset(),
    {
        self.offset
    }

    /// The header.
    pub fn header(&self) -> (r: &Directory)
        ensures
            *r == self.spec_header(),
    {
        &self.header
    }

    /// Returns a reference to its inner reader.
    pub fn reader(&self) -> (r: &R)
        ensures
            *r == self.spec_reader(),
    {
        &self.reader
    }

    /// Returns mutable reference to its inner reader.
    pub fn reader_mut(&mut self) -> (r: &mut R)
        ensures
            *r == old(self).spec_reader(),
            final(self).spec_offset() == old(self).spec_offset(),
            final(self).spec_header() == old(self).spec_header(),
            final(self).spec_reader() == *final(r),
    {
        &mut self.reader
    }

    /// Drops the inner state and returns the reader.
    pub fn into_reader(self) -> (r: R)
        ensures
            r == self.spec_reader(),
    {
        self.reader
    }

    /// Finds the file at `path`: the entry that its normalised segments
    /// name, which must be a file stored in the archive.
    pub fn read(&self, path: &str) -> (r: Result<File, ArchiveError>)
        requires
            spec_split_path(path@).len() > 0,
        ensures
            match r {
                Ok(f) => self.spec_read(path@) == Ok::<(u64, FileMetadataView), ArchiveError>(
                    (f.spec_offset(), f.spec_metadata()),
                ),
                Err(e) => self.spec_read(path@) == Err::<(u64, FileMetadataView), ArchiveError>(e),
            },
    {
        let segments = split_path(path);
        match self.header.search_segments(segments.as_slice()) {
            Some(Entry::File(metadata)) => {
                match metadata.offset() {
                    Ok(_) => Ok(File { offset: self.offset, metadata: metadata.clone() }),
                    Err(e) => Err(e),
                }
            },
            Some(_) => Err(ArchiveError::NotAFile),
            None => Err(ArchiveError::NotFound),
        }
    }
}

/// The smaller of two integers.
pub open spec fn min_int(a: int, b: int) -> int {
    if a <= b {
        a
    } else {
        b
    }
}

/// What `(-p) as u64` gives: the negation, taken modulo `2^64`.
pub open spec fn neg_as_u64(p: i64) -> int {
    if p > 0 {
        0x1_0000_0000_0000_0000 - p
    } else {
        -p
    }
}

/// What `x as i64` gives: `x`, taken modulo `2^64` into the `i64` range.
pub open spec fn u64_as_i64(x: u64) -> int {
    if x <= i64::MAX {
        x as int
    } else {
        x - 0x1_0000_0000_0000_0000
    }
}

impl File {
    /// Where the archive's file bytes begin.
    pub closed spec fn spec_offset(&self) -> u64 {
        self.offset
    }

    /// The metadata of the file.
    pub closed spec fn spec_metadata(&self) -> FileMetadataView {
        self.metadata@
    }

    /// A file of an archive whose file bytes begin at `offset`.
    pub fn new(offset: u64, metadata: FileMetadata) -> (f: File)
        ensures
            f.spec_offset() == offset,
            f.spec_metadata() == metadata@,
    {
        File { offset, metadata }
    }

    /// Gets the metadata of the file.
    pub fn metadata(&self) -> (m: &FileMetadata)
        ensures
            m@ == self.spec_metadata(),
    {
        &self.metadata
    }

    /// Where the archive's file bytes begin.
    pub fn offset(&self) -> (r: u64)
        ensures
            r == self.spec_offset(),
    {
        self.offset
    }

    /// Whether the first byte of the file lies within `u64`.
    pub open spec fn start_fits(&self) -> bool {
        self.spec_metadata().pos matches FilePosition::Offset(x) ==> self.spec_offset() + x <= u64::MAX
    }

    /// Whether [`File::start`] can be computed.
    pub fn start_in_range(&self) -> (b: bool)
        ensures
            b == self.start_fits(),
    {
        match self.metadata.pos {
            FilePosition::Offset(x) => self.offset <= u64::MAX - x,
            FilePosition::Unpacked => true,
        }
    }

    /// The position in the archive of the file's first byte.
    pub fn start(&self) -> (r: Result<u64, ArchiveError>)
        requires
            self.start_fits(),
        ensures
            r == match self.spec_metadata().pos {
                FilePosition::Offset(x) => Ok::<u64, ArchiveError>((self.spec_offset() + x) as u64),
                FilePosition::Unpacked => Err(ArchiveError::UnpackedUnsupported),
            },
    {
        let x = self.metadata.offset()?;
        Ok(self.offset + x)
    }

    /// Whether a seek to `position`, with `remaining` bytes of the file left
    /// to read, can be computed within the integer types.
    pub open spec fn seek_fits(&self, position: SeekPosition, remaining: u64) -> bool {
        let size = self.spec_metadata().size;
        &&& remaining <= size
        &&& self.spec_metadata().pos matches FilePosition::Offset(x) ==> {
            let base = self.spec_offset() + x;
            &&& base <= u64::MAX
            &&& match position {
                SeekPosition::Start(p) => base + min_int(size as int, p as int) <= u64::MAX,
                SeekPosition::Current(p) => p != i64::MIN,
                SeekPosition::End(p) => if p > 0 {
                    base + size <= u64::MAX
                } else {
                    p != i64::MIN && (-p <= size ==> base + size <= u64::MAX)
                },
            }
        }
    }

    /// Whether [`File::seek_target`] can be computed for a seek to
    /// `position` with `remaining` bytes left.
    pub fn seek_in_range(&self, position: SeekPosition, remaining: u64) -> (b: bool)
        ensures
            b == self.seek_fits(position, remaining),
    {
        let size = self.metadata.size;
        if remaining > size {
            return false;
        }
        match self.metadata.pos {
            FilePosition::Unpacked => true,
            FilePosition::Offset(x) => {
                if self.offset > u64::MAX - x {
                    return false;
                }
                let base = self.offset + x;
                match position {
                    SeekPosition::Start(p) => {
                        let clamped = if size <= p {
                            size
                        } else {
                            p
                        };
                        base <= u64::MAX - clamped
                    },
                    SeekPosition::Current(p) => p != i64::MIN,
                    SeekPosition::End(p) => {
                        if p > 0 {
                            base <= u64::MAX - size
                        } else {
                            p != i64::MIN && (((-p) as u64) > size || base <= u64::MAX - size)
                        }
                    },
                }
            },
        }
    }

    /// Where the underlying reader is asked to seek for a seek to
    /// `position` inside the file, with `remaining` bytes of the file left to
    /// read.
    pub open spec fn spec_seek_target(&self, position: SeekPosition, remaining: u64) -> Result<
        SeekPosition,
        ArchiveError,
    > {
        let size = self.spec_metadata().size;
        let current = size - remaining;
        match self.spec_metadata().pos {
            FilePosition::Unpacked => Err(ArchiveError::UnpackedUnsupported),
            FilePosition::Offset(x) => {
                let base = self.spec_offset() + x;
                match position {
                    SeekPosition::Start(p) => Ok(
                        SeekPosition::Start((base + min_int(size as int, p as int)) as u64),
                    ),
                    SeekPosition::Current(p) => if neg_as_u64(p) > current {
                        Err(ArchiveError::InvalidSeek)
                    } else {
                        Ok(SeekPosition::Current(min_int(p as int, u64_as_i64(remaining)) as i64))
                    },
                    SeekPosition::End(p) => if p > 0 {
                        Ok(SeekPosition::Start((base + size) as u64))
                    } else if -p > size {
                        Err(ArchiveError::InvalidSeek)
                    } else {
                        Ok(SeekPosition::Start((base + size + p) as u64))
                    },
                }
            },
        }
    }

    /// Computes where the underlying reader seeks for a seek to `position`
    /// inside the file, with `remaining` bytes of the file left to read: a
    /// seek from the start or the end is clamped to the file and made
    /// absolute; a seek from the current position is clamped to what is
    /// left; and a seek before the file's start is refused.
    pub fn seek_target(&self, position: SeekPosition, remaining: u64) -> (r: Result<SeekPosition, ArchiveError>)
        requires
            self.seek_fits(position, remaining),
        ensures
            r == self.spec_seek_target(position, remaining),
    {
        let size = self.metadata.size;
        let current = size - remaining;
        let x = self.metadata.offset()?;
        let base = self.offset + x;
        match position {
            SeekPosition::Start(p) => {
                let clamped = if size <= p {
                    size
                } else {
                    p
                };
                Ok(SeekPosition::Start(base + clamped))
            },
            SeekPosition::Current(p) => {
                let refused = if p > 0 {
                    current <= u64::MAX - (p as u64)
                } else {
                    ((-p) as u64) > current
                };
                if refused {
                    Err(ArchiveError::InvalidSeek)
                } else {
                    let rem: i64 = if remaining <= i64::MAX as u64 {
                        remaining as i64
                    } else {
                        ((remaining - (i64::MAX as u64) - 1) as i64) + i64::MIN
                    };
                    let relative = if p <= rem {
                        p
                    } else {
                        rem
                    };
                    Ok(SeekPosition::Current(relative))
                }
            },
            SeekPosition::End(p) => {
                if p > 0 {
                    Ok(SeekPosition::Start(base + size))
                } else {
                    let back = (-p) as u64;
                    if back > size {
                        Err(ArchiveError::InvalidSeek)
                    } else {
                        Ok(SeekPosition::Start(base + size - back))
                    }
                }
            },
        }
    }

    /// Whether the position `absolute` that the underlying reader reports
    /// after a seek lies within the file.
    pub open spec fn complete_fits(&self, absolute: u64) -> bool {
        &&& absolute >= self.spec_offset()
        &&& self.spec_metadata().pos matches FilePosition::Offset(x) ==> {
            &&& absolute - self.spec_offset() >= x
            &&& absolute - self.spec_offset() - x <= self.spec_metadata().size
        }
    }

    /// Whether [`File::complete_seek`] can be computed for `absolute`.
    pub fn complete_in_range(&self, absolute: u64) -> (b: bool)
        ensures
            b == self.complete_fits(absolute),
    {
        if absolute < self.offset {
            return false;
        }
        match self.metadata.pos {
            FilePosition::Unpacked => true,
            FilePosition::Offset(x) => {
                let after = absolute - self.offset;
                after >= x && after - x <= self.metadata.size
            },
        }
    }

    /// The position inside the file and the bytes left to read, from the
    /// position `absolute` of the underlying reader.
    pub open spec fn spec_complete_seek(&self, absolute: u64) -> Result<(u64, u64), ArchiveError> {
        match self.spec_metadata().pos {
            FilePosition::Offset(x) => {
                let rel = absolute - self.spec_offset() - x;
                Ok((rel as u64, (self.spec_metadata().size - rel) as u64))
            },
            FilePosition::Unpacked => Err(ArchiveError::UnpackedUnsupported),
        }
    }

    /// From the position `absolute` that the underlying reader reports after
    /// a seek, computes the position inside the file and how many bytes of
    /// the file are left to read.
    pub fn complete_seek(&self, absolute: u64) -> (r: Result<(u64, u64), ArchiveError>)
        requires
            self.complete_fits(absolute),
        ensures
            r == self.spec_complete_seek(absolute),
    {
        let after_archive = absolute - self.offset;
        let x = self.metadata.offset()?;
        let relative = after_archive - x;
        Ok((relative, self.metadata.size - relative))
    }
}

/// Where a seek from the start or from the end lands inside a file of
/// `size` bytes: the start offset, or the end moved back, clamped to the
/// file.
pub open spec fn spec_landing(size: u64, position: SeekPosition) -> int {
    match position {
        SeekPosition::Start(p) => min_int(size as int, p as int),
        SeekPosition::End(p) => if p > 0 {
            size as int
        } else {
            size + p
        },
        SeekPosition::Current(_) => 0,
    }
}

/// A seek from the start or from the end that the file accepts sends the
/// underlying reader to a position inside the file; once the reader is
/// there, the file reports the clamped target as its position and the rest
/// of the file as what is left to read.
pub proof fn lemma_seek_lands_in_file(f: File, position: SeekPosition, remaining: u64)
    requires
        f.seek_fits(position, remaining),
        !(position is Current),
        f.spec_metadata().pos is Offset,
        position matches SeekPosition::End(p) ==> p > 0 || -p <= f.spec_metadata().size,
    ensures
        ({
            let size = f.spec_metadata().size;
            let land = spec_landing(size, position);
            &&& 0 <= land <= size
            &&& f.spec_seek_target(position, remaining) matches Ok(SeekPosition::Start(t)) && f.complete_fits(t)
                && f.spec_complete_seek(t) == Ok::<(u64, u64), ArchiveError>(
                (land as u64, (size - land) as u64),
            )
        }),
{
}
/// What reading a path gives depends on the header and on where the file
/// bytes begin, not on the reader: an archive whose reader was moved or
/// replaced through [`Archive::reader_mut`] (which keeps both) reads every
/// path as before.
pub proof fn lemma_read_ignores_reader<R>(a: Archive<R>, b: Archive<R>, path: Seq<char>)
    requires
        a.spec_header() == b.spec_header(),
        a.spec_offset() == b.spec_offset(),
    ensures
        a.spec_read(path) == b.spec_read(path),
{
}

/// A seek from the current position that the file accepts keeps the
/// file's cursor inside its own bytes. Before the seek the cursor is at
/// `size - remaining`, and the underlying reader at that position after
/// where the file's bytes begin; the reader moves by the relative target;
/// once it is there, the file reports a position between `0` and `size`, and
/// the rest of the file as what is left to read. (A file with more than
/// `i64::MAX` bytes left is left out: there `remaining as i64` wraps to a
/// negative number.)
pub proof fn lemma_relative_seek_stays_in_file(f: File, p: i64, remaining: u64)
    requires
        f.seek_fits(SeekPosition::Current(p), remaining),
        f.spec_seek_target(SeekPosition::Current(p), remaining) is Ok,
        f.spec_metadata().pos matches FilePosition::Offset(x) && f.spec_offset() + x
            + f.spec_metadata().size <= u64::MAX,
        remaining <= i64::MAX,
    ensures
        ({
            let size = f.spec_metadata().size;
            let current = size - remaining;
            let x = f.spec_metadata().pos->Offset_0;
            let base = f.spec_offset() + x;
            f.spec_seek_target(SeekPosition::Current(p), remaining) matches Ok(
                SeekPosition::Current(q),
            ) && {
                let land = current + q;
                &&& 0 <= land <= size
                &&& f.complete_fits((base + land) as u64)
                &&& f.spec_complete_seek((base + land) as u64) == Ok::<(u64, u64), ArchiveError>(
                    (land as u64, (size - land) as u64),
                )
            }
        }),
{
}

/// A seek from the start is never refused, whatever has been read: it goes
/// to where the file's bytes begin, plus the offset, or the file's size if
/// that is smaller.
pub proof fn lemma_seek_from_start_never_refused(f: File, p: u64, remaining: u64)
    requires
        f.seek_fits(SeekPosition::Start(p), remaining),
        f.spec_metadata().pos is Offset,
    ensures
        ({
            let size = f.spec_metadata().size;
            let base = f.spec_offset() + f.spec_metadata().pos->Offset_0;
            let clamped = if p <= size {
                p as int
            } else {
                size as int
            };
            f.spec_seek_target(SeekPosition::Start(p), remaining) == Ok::<SeekPosition, ArchiveError>(
                SeekPosition::Start((base + clamped) as u64),
            )
        }),
{
}

/// A seek from the end is refused exactly when it would go back past the
/// file's start; otherwise it goes to the end moved back by the offset (a
/// positive offset stays at the end).
pub proof fn lemma_seek_from_end(f: File, p: i64, remaining: u64)
    requires
        f.seek_fits(SeekPosition::End(p), remaining),
        f.spec_metadata().pos is Offset,
    ensures
        ({
            let size = f.spec_metadata().size;
            let base = f.spec_offset() + f.spec_metadata().pos->Offset_0;
            if p <= 0 && -p > size {
                f.spec_seek_target(SeekPosition::End(p), remaining) == Err::<SeekPosition, ArchiveError>(
                    ArchiveError::InvalidSeek,
                )
            } else {
                f.spec_seek_target(SeekPosition::End(p), remaining) == Ok::<SeekPosition, ArchiveError>(
                    SeekPosition::Start((base + size + (if p > 0 { 0 } else { p as int })) as u64),
                )
            }
        }),
{
}

/// A seek back from the current position by no more than has been read is
/// never refused, and moves back by exactly that much. (A file with more
/// than `i64::MAX` bytes left is left out: there `remaining as i64` wraps.)
pub proof fn lemma_seek_back_within_read(f: File, p: i64, remaining: u64)
    requires
        f.seek_fits(SeekPosition::Current(p), remaining),
        f.spec_metadata().pos is Offset,
        p <= 0,
        -p <= f.spec_metadata().size - remaining,
        remaining <= i64::MAX,
    ensures
        f.spec_seek_target(SeekPosition::Current(p), remaining) == Ok::<SeekPosition, ArchiveError>(
            SeekPosition::Current(p),
        ),
{
}

/// A file stored outside the archive cannot be sought in, from anywhere.
pub proof fn lemma_seek_unpacked(f: File, position: SeekPosition, remaining: u64)
    requires
        f.spec_metadata().pos is Unpacked,
    ensures
        f.spec_seek_target(position, remaining) == Err::<SeekPosition, ArchiveError>(
            ArchiveError::UnpackedUnsupported,
        ),
{
}

/// Reading a path that names a file of the header gives that file's
/// metadata as the header holds it, every field included, with where the
/// archive's file bytes begin; a path that names a directory, nothing, or
/// a file stored outside the archive gives the matching error.
pub proof fn lemma_read_gives_header_entry<R>(a: Archive<R>, path: Seq<char>)
    ensures
        match a.spec_header().spec_search(spec_split_path(path)) {
            Some(Entry::File(m)) => if m.pos is Offset {
                a.spec_read(path) matches Ok((o, mv)) && o == a.spec_offset() && mv.pos == m.pos
                    && mv.size == m.size && mv.executable == m.executable && mv.integrity
                    == m@.integrity
            } else {
                a.spec_read(path) == Err::<(u64, FileMetadataView), ArchiveError>(
                    ArchiveError::UnpackedUnsupported,
                )
            },
            Some(Entry::Directory(_)) => a.spec_read(path) == Err::<(u64, FileMetadataView), ArchiveError>(
                ArchiveError::NotAFile,
            ),
            None => a.spec_read(path) == Err::<(u64, FileMetadataView), ArchiveError>(
                ArchiveError::NotFound,
            ),
        },
{
}

/// Reading a one-segment path gives the file of that name in the root
/// directory, its metadata whole, integrity information included.
pub proof fn lemma_read_root_file<R>(a: Archive<R>, name: Seq<char>, m: FileMetadata)
    requires
        is_entry_name(name),
        a.spec_header().spec_get(name) == Some(Entry::File(m)),
        m.pos is Offset,
    ensures
        a.spec_read(name) == Ok::<(u64, FileMetadataView), ArchiveError>((a.spec_offset(), m@)),
{
    crate::lemma_split_path_one_name(name);
    crate::header::lemma_search_one_name(a.spec_header(), name);
}

} // verus!
