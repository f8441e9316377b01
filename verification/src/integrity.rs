//! Checking a file's bytes against the integrity information of its header
//! entry: each block against its hash, then the size and the hash of the
//! whole.
//!
//! The bytes are read by the caller, one block at a time; each step here
//! takes the block that was read and says whether to read another.

use vstd::prelude::*;

use crate::digest::{hasher_finalize, hasher_input, hasher_new, hasher_update, sha256, sha256_digest, Sha256Hasher};
use crate::header::{FileMetadata, FileMetadataView, Integrity, IntegrityView};
use crate::strings::bytes_eq;

verus! {

/// The bytes of `blocks`, one block after another.
pub open spec fn joined(blocks: Seq<Seq<u8>>) -> Seq<u8>
    decreases blocks.len(),
{
    if blocks.len() == 0 {
        Seq::empty()
    } else {
        joined(blocks.drop_last()) + blocks.last()
    }
}

/// Whether `block`, read as block number `i`, passes: it is not empty and
/// its SHA-256 is the hash recorded for that block.
pub open spec fn block_passes(integrity: IntegrityView, i: int, block: Seq<u8>) -> bool {
    &&& block.len() > 0
    &&& 0 <= i < integrity.blocks.len()
    &&& sha256(block) == integrity.blocks[i]
}

/// Whether the blocks read from a file pass its integrity check: there is
/// one for each recorded block hash, each passes, together they are `size`
/// bytes long, and the SHA-256 of all of them is the recorded hash.
pub open spec fn integrity_holds(integrity: IntegrityView, size: u64, blocks: Seq<Seq<u8>>) -> bool {
    &&& blocks.len() == integrity.blocks.len()
    &&& forall|i: int| 0 <= i < blocks.len() ==> block_passes(integrity, i, #[trigger] blocks[i])
    &&& joined(blocks).len() == size
    &&& sha256(joined(blocks)) == integrity.hash
}

/// An integrity check under way: some blocks have been read and have
/// passed, and more are expected.
pub struct IntegrityCheck {
    integrity: Integrity,
    size: u64,
    read: u64,
    next: usize,
    hasher: Sha256Hasher,
    blocks: Ghost<Seq<Seq<u8>>>,
}

/// What a step of the check leads to.
pub enum IntegrityProgress {
    /// Read the next block (at most [`IntegrityCheck::block_size`] bytes) and
    /// go on.
    Continue(IntegrityCheck),
    /// The check is over, with this verdict.
    Done(bool),
}

impl IntegrityCheck {
    #[verifier::type_invariant]
    spec fn wf(self) -> bool {
        &&& self.blocks@.len() < self.integrity@.blocks.len()
        &&& forall|i: int| 0 <= i < self.blocks@.len() ==> block_passes(self.integrity@, i, #[trigger] self.blocks@[i])
        &&& hasher_input(self.hasher) == joined(self.blocks@)
        &&& self.read == joined(self.blocks@).len()
        &&& self.next == self.blocks@.len()
    }

    /// The integrity information that the bytes are checked against.
    pub closed spec fn spec_integrity(self) -> IntegrityView {
        self.integrity@
    }

    /// The size that the file's bytes must have.
    pub closed spec fn spec_size(self) -> u64 {
        self.size
    }

    /// The blocks read so far, all of which passed.
    pub closed spec fn spec_blocks(self) -> Seq<Seq<u8>> {
        self.blocks@
    }

    /// The most bytes that the next block may have.
    pub fn block_size(&self) -> (n: u32)
        ensures
            n == self.spec_integrity().block_size,
    {
        self.integrity.block_size
    }

    /// How many bytes have been read so far.
    pub fn bytes_read(&self) -> (n: u64)
        ensures
            n == joined(self.spec_blocks()).len(),
    {
        proof {
            use_type_invariant(self);
        }
        self.read
    }

    /// The final check, once every block has passed: the size and the
    /// hash of all the bytes.
    fn conclude(integrity: &Integrity, size: u64, read: u64, hasher: Sha256Hasher) -> (ok: bool)
        ensures
            ok == (read == size && sha256(hasher_input(hasher)) == integrity@.hash),
    {
        if read != size {
            return false;
        }
        let whole = hasher_finalize(hasher);
        bytes_eq(whole.as_slice(), integrity.hash.as_bytes())
    }

    /// Starts checking a file with metadata `metadata`: a file without
    /// integrity information passes at once; one whose integrity
    /// information lists no blocks is decided at once on its size and hash.
    pub fn start(metadata: &FileMetadata) -> (p: IntegrityProgress)
        ensures
            match metadata@.integrity {
                None => p == IntegrityProgress::Done(true),
                Some(iv) => if iv.blocks.len() == 0 {
                    p == IntegrityProgress::Done(integrity_holds(iv, metadata@.size, Seq::empty()))
                } else {
                    p matches IntegrityProgress::Continue(c) && c.spec_integrity() == iv
                        && c.spec_size() == metadata@.size && c.spec_blocks() == Seq::<Seq<u8>>::empty()
                },
            },
    {
        match &metadata.integrity {
            None => IntegrityProgress::Done(true),
            Some(integrity) => {
                let hasher = hasher_new();
                if integrity.blocks.len() == 0 {
                    let ok = Self::conclude(integrity, metadata.size, 0, hasher);
                    proof {
                        assert(joined(Seq::<Seq<u8>>::empty()) == Seq::<u8>::empty());
                    }
                    return IntegrityProgress::Done(ok);
                }
                let check = IntegrityCheck {
                    integrity: integrity.clone(),
                    size: metadata.size,
                    read: 0,
                    next: 0,
                    hasher,
                    blocks: Ghost(Seq::empty()),
                };
                IntegrityProgress::Continue(check)
            },
        }
    }

    /// Takes the next block read from the file (at most
    /// [`IntegrityCheck::block_size`] bytes; fewer only at the end of the
    /// file). A block that is empty or whose hash is wrong fails the check;
    /// after the last block, the size and the hash of the whole decide.
    pub fn feed(self, block: &[u8]) -> (p: IntegrityProgress)
        requires
            joined(self.spec_blocks()).len() + block@.len() <= u64::MAX,
        ensures
            ({
                let blocks = self.spec_blocks().push(block@);
                let iv = self.spec_integrity();
                if !block_passes(iv, self.spec_blocks().len() as int, block@) {
                    p == IntegrityProgress::Done(false)
                } else if blocks.len() == iv.blocks.len() {
                    p == IntegrityProgress::Done(integrity_holds(iv, self.spec_size(), blocks))
                } else {
                    p matches IntegrityProgress::Continue(c) && c.spec_integrity() == iv
                        && c.spec_size() == self.spec_size() && c.spec_blocks() == blocks
                }
            }),
    {
        proof {
            use_type_invariant(&self);
        }
        let integrity = self.integrity;
        let size = self.size;
        let read = self.read;
        let next = self.next;
        let blocks = self.blocks;
        let mut hasher = self.hasher;
        let ghost iv = integrity@;
        let ghost new_blocks = blocks@.push(block@);
        let k = next;
        let nb = integrity.blocks.len();
        assert(k < nb);
        assert(new_blocks == blocks@.push(block@));
        if block.len() == 0 {
            return IntegrityProgress::Done(false);
        }
        let digest = sha256_digest(block);
        assert(integrity.blocks@[k as int]@ == iv.blocks[k as int]);
        if !bytes_eq(digest.as_slice(), integrity.blocks[k].as_bytes()) {
            return IntegrityProgress::Done(false);
        }
        hasher_update(&mut hasher, block);
        let read = read + block.len() as u64;
        proof {
            assert(new_blocks.len() == blocks@.len() + 1);
            assert(new_blocks.drop_last() =~= blocks@);
            assert forall|j: int| 0 <= j < new_blocks.len() implies block_passes(iv, j, #[trigger] new_blocks[j]) by {
                if j < blocks@.len() {
                    assert(new_blocks[j] == blocks@[j]);
                }
            }
        }
        if k + 1 == nb {
            let ok = Self::conclude(&integrity, size, read, hasher);
            return IntegrityProgress::Done(ok);
        }
        IntegrityProgress::Continue(
            IntegrityCheck { integrity, size, read, next: k + 1, hasher, blocks: Ghost(new_blocks) },
        )
    }
}

} // verus!
