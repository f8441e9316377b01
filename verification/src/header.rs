//! Structures that describe an asar archive's header.
//!
//! The header is a single root [`Directory`], a tree of files and directories
//! like a file system's.

use vstd::prelude::*;

use crate::error::{ArchiveError, PositionError};
use crate::strings::{format_u64, parse_u64, spec_decimal, spec_parse_u64, str_eq};
use crate::{str_views, spec_split_path};

verus! {

/// Entry of either a file or a directory.
#[derive(Debug)]
pub enum Entry {
    /// A file.
    File(FileMetadata),
    /// A directory.
    Directory(Directory),
}

/// What an optional entry reference points to.
pub open spec fn deref_entry(o: Option<&Entry>) -> Option<Entry> {
    match o {
        Some(e) => Some(*e),
        None => None,
    }
}

/// Metadata of a file.
#[derive(Debug)]
pub struct FileMetadata {
    /// Where the file is located.
    pub pos: FilePosition,
    /// The file's size. The format asks that it be at most
    /// `9007199254740991`, JavaScript's `Number.MAX_SAFE_INTEGER`.
    pub size: u64,
    /// Whether the file is an executable.
    pub executable: bool,
    /// Optional integrity information of the file.
    pub integrity: Option<Integrity>,
}

/// The value of a [`FileMetadata`], with hashes taken by their bytes.
pub struct FileMetadataView {
    pub pos: FilePosition,
    pub size: u64,
    pub executable: bool,
    pub integrity: Option<IntegrityView>,
}

impl View for FileMetadata {
    type V = FileMetadataView;

    open spec fn view(&self) -> FileMetadataView {
        FileMetadataView {
            pos: self.pos,
            size: self.size,
            executable: self.executable,
            integrity: match self.integrity {
                Some(i) => Some(i@),
                None => None,
            },
        }
    }
}

impl Clone for FileMetadata {
    fn clone(&self) -> (r: Self)
        ensures
            r@ == self@,
    {
        let integrity = match &self.integrity {
            Some(i) => Some(i.clone()),
            None => None,
        };
        FileMetadata { pos: self.pos, size: self.size, executable: self.executable, integrity }
    }
}

impl FileMetadata {
    /// The offset of the file's bytes after the header, or an error for a
    /// file stored outside the archive.
    pub fn offset(&self) -> (r: Result<u64, ArchiveError>)
        ensures
            r == match self.pos {
                FilePosition::Offset(x) => Ok::<u64, ArchiveError>(x),
                FilePosition::Unpacked => Err(ArchiveError::UnpackedUnsupported),
            },
    {
        match self.pos {
            FilePosition::Offset(x) => Ok(x),
            FilePosition::Unpacked => Err(ArchiveError::UnpackedUnsupported),
        }
    }
}

/// Whether the file is stored in the archive or is unpacked.
#[derive(Debug, Clone, Copy)]
pub enum FilePosition {
    /// Offset of the file in the archive, indicates the file is stored in it.
    Offset(u64),
    /// Indicates the file is stored outside the archive.
    Unpacked,
}

/// The fields that record a file's position in the header: either an
/// `offset` string (with an optional `unpacked` flag) or an `unpacked` flag
/// alone.
#[derive(Debug)]
pub enum PositionFields {
    Offset { unpacked: Option<bool>, offset: String },
    Unpacked(bool),
}

/// What reading the position fields `f` gives.
pub open spec fn spec_position_from_fields(f: PositionFields) -> Result<FilePosition, PositionError> {
    match f {
        PositionFields::Offset { unpacked, offset } => {
            if unpacked == Some(true) {
                Err(PositionError::BothUnpackedAndOffset)
            } else {
                match spec_parse_u64(offset@) {
                    Some(n) => Ok(FilePosition::Offset(n)),
                    None => Err(PositionError::InvalidOffset),
                }
            }
        },
        PositionFields::Unpacked(unpacked) => {
            if unpacked {
                Ok(FilePosition::Unpacked)
            } else {
                Err(PositionError::UnpackedFalse)
            }
        },
    }
}

/// Whether `f` is how the position `p` is written to the header: an offset
/// as its decimal string with no `unpacked` flag, or `unpacked: true`.
pub open spec fn fields_of_position(p: FilePosition, f: PositionFields) -> bool {
    match p {
        FilePosition::Offset(n) => f matches PositionFields::Offset { unpacked, offset } && unpacked
            is None && offset@ == spec_decimal(n as nat),
        FilePosition::Unpacked => f matches PositionFields::Unpacked(unpacked) && unpacked,
    }
}

impl FilePosition {
    /// The header fields that record this position.
    pub fn serialize(&self) -> (f: PositionFields)
        ensures
            fields_of_position(*self, f),
    {
        match self {
            FilePosition::Offset(n) => PositionFields::Offset { unpacked: None, offset: format_u64(*n) },
            FilePosition::Unpacked => PositionFields::Unpacked(true),
        }
    }

    /// Reads a position from its header fields: an `offset` must be a `u64`
    /// string and must not come with `unpacked: true`, and `unpacked` alone
    /// must be `true`.
    pub fn deserialize(f: &PositionFields) -> (r: Result<FilePosition, PositionError>)
        ensures
            r == spec_position_from_fields(*f),
    {
        match f {
            PositionFields::Offset { unpacked, offset } => {
                if let Some(true) = unpacked {
                    Err(PositionError::BothUnpackedAndOffset)
                } else {
                    match parse_u64(offset.as_str()) {
                        Some(n) => Ok(FilePosition::Offset(n)),
                        None => Err(PositionError::InvalidOffset),
                    }
                }
            },
            PositionFields::Unpacked(unpacked) => {
                if *unpacked {
                    Ok(FilePosition::Unpacked)
                } else {
                    Err(PositionError::UnpackedFalse)
                }
            },
        }
    }
}

/// Reading back the header fields that a position is written as gives the
/// same position.
pub proof fn lemma_position_roundtrip(p: FilePosition, f: PositionFields)
    requires
        fields_of_position(p, f),
    ensures
        spec_position_from_fields(f) == Ok::<FilePosition, PositionError>(p),
{
    if let FilePosition::Offset(n) = p {
        crate::strings::lemma_parse_decimal(n);
    }
}

/// Integrity information of a file.
#[derive(Debug)]
pub struct Integrity {
    /// Hashing algorithm used.
    pub algorithm: Algorithm,
    /// The hash of the entire file.
    pub hash: Hash,
    /// Indicates the size of each block of the hashes in `blocks`.
    pub block_size: u32,
    /// Hashes of blocks.
    pub blocks: Vec<Hash>,
}

/// The value of an [`Integrity`], with hashes taken by their bytes.
pub struct IntegrityView {
    pub algorithm: Algorithm,
    pub hash: Seq<u8>,
    pub block_size: u32,
    pub blocks: Seq<Seq<u8>>,
}

impl View for Integrity {
    type V = IntegrityView;

    open spec fn view(&self) -> IntegrityView {
        IntegrityView {
            algorithm: self.algorithm,
            hash: self.hash@,
            block_size: self.block_size,
            blocks: self.blocks@.map_values(|h: Hash| h@),
        }
    }
}

impl Clone for Integrity {
    fn clone(&self) -> (r: Self)
        ensures
            r@ == self@,
    {
        let mut blocks: Vec<Hash> = Vec::new();
        let n = self.blocks.len();
        for i in 0..n
            invariant
                n == self.blocks@.len(),
                blocks@.len() == i,
                forall|j: int| 0 <= j < i ==> #[trigger] blocks@[j]@ == self.blocks@[j]@,
        {
            blocks.push(self.blocks[i].clone());
        }
        let r = Integrity {
            algorithm: self.algorithm,
            hash: self.hash.clone(),
            block_size: self.block_size,
            blocks,
        };
        assert(r.blocks@.map_values(|h: Hash| h@) == self.blocks@.map_values(|h: Hash| h@));
        r
    }
}

/// A hash value, as bytes.
#[derive(Debug)]
pub struct Hash(pub(crate) Vec<u8>);

impl View for Hash {
    type V = Seq<u8>;

    closed spec fn view(&self) -> Seq<u8> {
        self.0@
    }
}

impl Clone for Hash {
    fn clone(&self) -> (r: Self)
        ensures
            r@ == self@,
    {
        Hash(self.0.clone())
    }
}

impl From<Vec<u8>> for Hash {
    fn from(x: Vec<u8>) -> (h: Hash)
        ensures
            h@ == x@,
    {
        Hash(x)
    }
}

impl vstd::std_specs::convert::FromSpecImpl<Vec<u8>> for Hash {
    open spec fn obeys_from_spec() -> bool {
        true
    }

    closed spec fn from_spec(x: Vec<u8>) -> Hash {
        Hash(x)
    }
}

impl From<Hash> for Vec<u8> {
    fn from(x: Hash) -> (v: Vec<u8>)
        ensures
            v@ == x@,
    {
        x.0
    }
}

impl vstd::std_specs::convert::FromSpecImpl<Hash> for Vec<u8> {
    open spec fn obeys_from_spec() -> bool {
        true
    }

    closed spec fn from_spec(x: Hash) -> Vec<u8> {
        x.0
    }
}

impl AsRef<[u8]> for Hash {
    fn as_ref(&self) -> (b: &[u8])
        ensures
            b@ == self@,
    {
        self.0.as_slice()
    }
}

impl std::ops::Deref for Hash {
    type Target = [u8];

    fn deref(&self) -> (b: &[u8])
        ensures
            b@ == self@,
    {
        self.0.as_slice()
    }
}

impl Hash {
    /// The bytes of the hash.
    pub(crate) fn as_bytes(&self) -> (b: &[u8])
        ensures
            b@ == self@,
    {
        self.0.as_slice()
    }
}

/// The lowercase hexadecimal digit for `d` (`0 <= d < 16`).
pub open spec fn hex_digit(d: int) -> char {
    if d < 10 {
        (d + '0' as int) as char
    } else {
        (d - 10 + 'a' as int) as char
    }
}

/// `bytes` in lowercase hexadecimal, two digits per byte, high half first.
pub open spec fn spec_hex(bytes: Seq<u8>) -> Seq<char>
    decreases bytes.len(),
{
    if bytes.len() == 0 {
        Seq::empty()
    } else {
        spec_hex(bytes.drop_last()) + seq![
            hex_digit(bytes.last() as int / 16),
            hex_digit(bytes.last() as int % 16),
        ]
    }
}

/// `hex::encode`: the bytes `data` in lowercase hexadecimal. The trusted
/// contract states the crate's output: for each byte, the digit of its high
/// four bits, then that of its low four bits, from `0123456789abcdef`.
#[verifier::external_body]
fn hex_encode(data: &[u8]) -> (s: String)
    ensures
        s@ == spec_hex(data@),
{
    hex::encode(data)
}

impl Hash {
    /// The hash in lowercase hexadecimal, as it is displayed and as the
    /// header stores it.
    pub fn to_hex(&self) -> (s: String)
        ensures
            s@ == spec_hex(self@),
    {
        hex_encode(self.0.as_slice())
    }
}

/// Hashing algorithm used to check files' integrity.
///
/// Currently only SHA256 is officially supported.
#[derive(Debug, Clone, Copy)]
pub enum Algorithm {
    SHA256,
}

/// Whether no two of `files` have the same name.
pub open spec fn names_distinct(files: Seq<(String, Entry)>) -> bool {
    forall|i: int, j: int|
        0 <= i < j < files.len() ==> (#[trigger] files[i]).0@ != (#[trigger] files[j]).0@
}

/// The position of the entry named `name` in `files`, or `-1` when there is none.
pub open spec fn position_of(files: Seq<(String, Entry)>, name: Seq<char>) -> int {
    if exists|i: int| 0 <= i < files.len() && (#[trigger] files[i]).0@ == name {
        choose|i: int| 0 <= i < files.len() && (#[trigger] files[i]).0@ == name
    } else {
        -1
    }
}

/// A directory, containing named entries.
#[derive(Debug)]
pub struct Directory {
    files: Vec<(String, Entry)>,
}

impl Directory {
    #[verifier::type_invariant]
    spec fn wf(self) -> bool {
        names_distinct(self.files@)
    }

    /// The named entries of the directory, in order.
    pub closed spec fn entries(self) -> Seq<(String, Entry)> {
        self.files@
    }

    /// The entry named `name`, if there is one.
    pub open spec fn spec_get(self, name: Seq<char>) -> Option<Entry> {
        let i = position_of(self.entries(), name);
        if i < 0 {
            None
        } else {
            Some(self.entries()[i].1)
        }
    }

    /// The names of the directory's entries.
    pub open spec fn names(self) -> Set<Seq<char>> {
        Set::new(|n: Seq<char>| exists|i: int| 0 <= i < self.entries().len() && (#[trigger] self.entries()[i]).0@ == n)
    }

    /// An empty directory.
    pub fn new() -> (d: Directory)
        ensures
            d.entries().len() == 0,
    {
        Directory { files: Vec::new() }
    }

    /// The entries of a directory are smaller than the directory.
    pub proof fn lemma_entry_decreases(self, i: int)
        requires
            0 <= i < self.entries().len(),
        ensures
            decreases_to!(self => self.entries()[i].1),
    {
        assert(decreases_to!(self => self.files));
        assert(decreases_to!(self.files => self.files@));
        assert(decreases_to!(self.files@ => self.files@[i]));
        assert(decreases_to!(self.files@[i] => self.files@[i].1));
    }

    /// The number of entries.
    pub fn len(&self) -> (n: usize)
        ensures
            n == self.entries().len(),
    {
        self.files.len()
    }

    /// The named entries of the directory, in order.
    pub fn files(&self) -> (f: &[(String, Entry)])
        ensures
            f@ == self.entries(),
    {
        self.files.as_slice()
    }
}

impl Default for Directory {
    fn default() -> (d: Directory)
        ensures
            d.entries().len() == 0,
    {
        Directory::new()
    }
}

impl Entry {
    /// The entry reached from this one by following the names `segs`: the
    /// entry itself for no names, nothing through a file, and through a
    /// directory the entry of the first name, followed by the rest.
    pub open spec fn spec_search(self, segs: Seq<Seq<char>>) -> Option<Entry>
        decreases self, 0nat,
    {
        if segs.len() == 0 {
            Some(self)
        } else {
            match self {
                Entry::File(_) => None,
                Entry::Directory(d) => d.spec_search(segs),
            }
        }
    }

    /// Follows the names `segments` down from this entry.
    pub fn search_segments<'a>(&'a self, segments: &[&str]) -> (r: Option<&'a Entry>)
        ensures
            deref_entry(r) == self.spec_search(str_views(segments@)),
        decreases self, 0nat,
    {
        if segments.len() == 0 {
            return Some(self);
        }
        match self {
            Entry::File(_) => None,
            Entry::Directory(dir) => dir.search_segments(segments),
        }
    }
}

impl Directory {
    /// The entry reached by following the names `segs` from this directory:
    /// the entry of the first name, then the rest of the names from it.
    pub open spec fn spec_search(self, segs: Seq<Seq<char>>) -> Option<Entry>
        decreases self, 1nat,
    {
        let i = position_of(self.entries(), segs[0]);
        if 0 <= i < self.entries().len() {
            self.entries()[i].1.spec_search(segs.drop_first())
        } else {
            None
        }
    }

    /// The entry named `name`, if there is one.
    pub fn get<'a>(&'a self, name: &str) -> (r: Option<&'a Entry>)
        ensures
            deref_entry(r) == self.spec_get(name@),
            r matches Some(e) ==> {
                let i = position_of(self.entries(), name@);
                0 <= i < self.entries().len() && *e == self.entries()[i].1
            },
    {
        proof {
            use_type_invariant(self);
        }
        let n = self.files.len();
        let mut i: usize = 0;
        while i < n
            invariant
                n == self.files@.len(),
                i <= n,
                forall|j: int| 0 <= j < i ==> (#[trigger] self.files@[j]).0@ != name@,
            decreases n - i,
        {
            if str_eq(self.files[i].0.as_str(), name) {
                proof {
                    use_type_invariant(self);
                    let k = position_of(self.entries(), name@);
                    assert(self.entries()[i as int].0@ == name@);
                    assert(0 <= k < self.entries().len() && self.entries()[k].0@ == name@);
                    assert(k == i);
                }
                return Some(&self.files[i].1);
            }
            i += 1;
        }
        assert(position_of(self.entries(), name@) == -1);
        None
    }

    /// Puts `entry` under `name`, in place of the entry of that name if
    /// there is one, and gives back the entry it replaced.
    pub fn insert(&mut self, name: String, entry: Entry) -> (r: Option<Entry>)
        ensures
            r == old(self).spec_get(name@),
            final(self).spec_get(name@) == Some(entry),
            forall|n: Seq<char>| n != name@ ==> final(self).spec_get(n) == old(self).spec_get(n),
            final(self).names() == old(self).names().insert(name@),
    {
        proof {
            use_type_invariant(&*self);
        }
        let ghost old_files = self.files@;
        let ghost k = position_of(old_files, name@);
        let n = self.files.len();
        let mut i: usize = 0;
        while i < n
            invariant
                n == self.files@.len(),
                self.files@ == old_files,
                old_files == old(self).entries(),
                k == position_of(old_files, name@),
                names_distinct(old_files),
                i <= n,
                forall|j: int| 0 <= j < i ==> (#[trigger] old_files[j]).0@ != name@,
            decreases n - i,
        {
            if str_eq(self.files[i].0.as_str(), name.as_str()) {
                proof {
                    assert(old_files[i as int].0@ == name@);
                    assert(0 <= k < old_files.len() && old_files[k].0@ == name@);
                    assert(k == i);
                }
                let mut files: Vec<(String, Entry)> = Vec::new();
                std::mem::swap(&mut files, &mut self.files);
                let (old_name, old_entry) = files.remove(i);
                files.insert(i, (old_name, entry));
                proof {
                    assert(files@ == old_files.update(i as int, (old_files[i as int].0, entry)));
                    assert forall|a: int, b: int| 0 <= a < b < files@.len() implies (#[trigger] files@[a]).0@ != (#[trigger] files@[b]).0@ by {
                        assert(old_files[a].0@ == files@[a].0@);
                        assert(old_files[b].0@ == files@[b].0@);
                    }
                }
                self.files = files;
                proof {
                    let nf = self.files@;
                    assert(nf == old_files.update(i as int, (old_files[i as int].0, entry)));
                    assert forall|m: Seq<char>| m != name@ implies #[trigger] self.spec_get(m) == old(self).spec_get(m) by {
                        let a = position_of(old_files, m);
                        let b = position_of(nf, m);
                        if exists|j: int| 0 <= j < old_files.len() && (#[trigger] old_files[j]).0@ == m {
                            assert(nf[a].0@ == m);
                            assert(0 <= b < nf.len() && nf[b].0@ == m);
                            assert(a == b);
                        } else {
                            if exists|j: int| 0 <= j < nf.len() && (#[trigger] nf[j]).0@ == m {
                                assert(old_files[b].0@ == m);
                            }
                        }
                    }
                    let b = position_of(nf, name@);
                    assert(nf[i as int].0@ == name@);
                    assert(0 <= b < nf.len() && nf[b].0@ == name@);
                    assert(b == i);
                    assert(self.names() == old(self).names().insert(name@)) by {
                        assert forall|m: Seq<char>| #[trigger] self.names().contains(m) == old(self).names().insert(name@).contains(m) by {
                            if exists|j: int| 0 <= j < nf.len() && (#[trigger] nf[j]).0@ == m {
                                let j = choose|j: int| 0 <= j < nf.len() && (#[trigger] nf[j]).0@ == m;
                                assert(old_files[j].0@ == m);
                            }
                            if exists|j: int| 0 <= j < old_files.len() && (#[trigger] old_files[j]).0@ == m {
                                let j = choose|j: int| 0 <= j < old_files.len() && (#[trigger] old_files[j]).0@ == m;
                                assert(nf[j].0@ == m);
                            }
                        }
                    }
                }
                return Some(old_entry);
            }
            i += 1;
        }
        let mut files: Vec<(String, Entry)> = Vec::new();
        std::mem::swap(&mut files, &mut self.files);
        files.push((name, entry));
        proof {
            assert forall|a: int, b: int| 0 <= a < b < files@.len() implies (#[trigger] files@[a]).0@ != (#[trigger] files@[b]).0@ by {
                assert(files@[a] == old_files[a]);
                if b < n {
                    assert(files@[b] == old_files[b]);
                }
            }
        }
        self.files = files;
        proof {
            let nf = self.files@;
            assert(nf == old_files.push((nf[n as int].0, entry)));
            assert(position_of(old_files, name@) == -1);
            assert forall|m: Seq<char>| m != name@ implies #[trigger] self.spec_get(m) == old(self).spec_get(m) by {
                let a = position_of(old_files, m);
                let b = position_of(nf, m);
                if exists|j: int| 0 <= j < old_files.len() && (#[trigger] old_files[j]).0@ == m {
                    assert(nf[a].0@ == m);
                    assert(0 <= b < nf.len() && nf[b].0@ == m);
                    assert(b < n);
                    assert(a == b);
                } else {
                    if exists|j: int| 0 <= j < nf.len() && (#[trigger] nf[j]).0@ == m {
                        assert(b < n);
                        assert(old_files[b].0@ == m);
                    }
                }
            }
            let b = position_of(nf, name@);
            assert(nf[n as int].0@ == name@);
            assert(0 <= b < nf.len() && nf[b].0@ == name@);
            assert(b == n);
            assert(self.names() == old(self).names().insert(name@)) by {
                assert forall|m: Seq<char>| #[trigger] self.names().contains(m) == old(self).names().insert(name@).contains(m) by {
                    if exists|j: int| 0 <= j < nf.len() && (#[trigger] nf[j]).0@ == m {
                        let j = choose|j: int| 0 <= j < nf.len() && (#[trigger] nf[j]).0@ == m;
                        if j < n {
                            assert(old_files[j].0@ == m);
                        }
                    }
                    if exists|j: int| 0 <= j < old_files.len() && (#[trigger] old_files[j]).0@ == m {
                        let j = choose|j: int| 0 <= j < old_files.len() && (#[trigger] old_files[j]).0@ == m;
                        assert(nf[j].0@ == m);
                    }
                }
            }
        }
        None
    }

    /// Follows the names `segments` down from this directory.
    pub fn search_segments<'a>(&'a self, segments: &[&str]) -> (r: Option<&'a Entry>)
        requires
            segments@.len() > 0,
        ensures
            deref_entry(r) == self.spec_search(str_views(segments@)),
        decreases self, 1nat,
    {
        match self.get(segments[0]) {
            Some(x) => {
                let rest = &segments[1..segments.len()];
                assert(str_views(rest@) == str_views(segments@).drop_first());
                x.search_segments(rest)
            },
            None => None,
        }
    }
}

/// Following the names `a` and then the names `b` from an entry reaches
/// the same entry as following `b` from wherever `a` leads: a path is looked
/// up one segment at a time, down the tree.
pub proof fn lemma_search_concat(e: Entry, a: Seq<Seq<char>>, b: Seq<Seq<char>>)
    ensures
        e.spec_search(a + b) == match e.spec_search(a) {
            Some(x) => x.spec_search(b),
            None => None,
        },
    decreases a.len(),
{
    if a.len() == 0 {
        assert(a + b == b);
    } else {
        assert((a + b).len() > 0);
        match e {
            Entry::File(_) => {},
            Entry::Directory(d) => {
                assert((a + b)[0] == a[0]);
                assert((a + b).drop_first() == a.drop_first() + b);
                let i = position_of(d.entries(), a[0]);
                if 0 <= i < d.entries().len() {
                    lemma_search_concat(d.entries()[i].1, a.drop_first(), b);
                }
            },
        }
    }
}

/// Looking up a path in a directory enters the entry named by its first
/// segment, whatever that name is, and follows the rest of the path from
/// there; with no entry of that name, nothing is found.
pub proof fn lemma_search_enters_named_entry(d: Directory, segs: Seq<Seq<char>>)
    requires
        segs.len() > 0,
    ensures
        match d.spec_get(segs[0]) {
            Some(x) => d.spec_search(segs) == x.spec_search(segs.drop_first()),
            None => d.spec_search(segs) is None,
        },
{
}

/// Looking up a one-segment path in a directory gives the entry of that
/// name, for every name.
pub proof fn lemma_search_one_name(d: Directory, name: Seq<char>)
    ensures
        d.spec_search(seq![name]) == d.spec_get(name),
{
    let segs = seq![name];
    assert(segs[0] == name);
    assert(segs.drop_first().len() == 0);
}

/// From an entry, the empty path reaches the entry itself, and no path of
/// one or more segments goes through a file.
pub proof fn lemma_search_entry_cases(e: Entry, segs: Seq<Seq<char>>)
    ensures
        segs.len() == 0 ==> e.spec_search(segs) == Some(e),
        segs.len() > 0 && e is File ==> e.spec_search(segs) is None,
        segs.len() > 0 ==> (e matches Entry::Directory(d) ==> e.spec_search(segs) == d.spec_search(segs)),
{
}

} // verus!
