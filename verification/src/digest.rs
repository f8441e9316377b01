//! SHA-256, computed by the `sha2` crate.

use vstd::prelude::*;

verus! {

/// The SHA-256 digest of `data`, as `sha2::Sha256` computes it.
pub uninterp spec fn sha256(data: Seq<u8>) -> Seq<u8>;

/// A running SHA-256 computation (`sha2::Sha256`).
#[verifier::external_body]
pub struct Sha256Hasher {
    inner: sha2::Sha256,
}

/// The bytes fed to a running SHA-256 computation so far.
pub uninterp spec fn hasher_input(h: Sha256Hasher) -> Seq<u8>;

/// `<sha2::Sha256 as Digest>::digest`: the digest of `data`. The trusted
/// contract names the result `sha256(data)`.
#[verifier::external_body]
pub fn sha256_digest(data: &[u8]) -> (r: Vec<u8>)
    ensures
        r@ == sha256(data@),
{
    <sha2::Sha256 as sha2::Digest>::digest(data).to_vec()
}

/// `<sha2::Sha256 as Digest>::new`: a computation that has been fed
/// nothing. The trusted contract says that its input is empty.
#[verifier::external_body]
pub fn hasher_new() -> (h: Sha256Hasher)
    ensures
        hasher_input(h) == Seq::<u8>::empty(),
{
    Sha256Hasher { inner: <sha2::Sha256 as sha2::Digest>::new() }
}

/// `<sha2::Sha256 as Digest>::update`: feeds `data`. The trusted contract
/// says that the input grows by `data`.
#[verifier::external_body]
pub fn hasher_update(h: &mut Sha256Hasher, data: &[u8])
    ensures
        hasher_input(*final(h)) == hasher_input(*old(h)) + data@,
{
    sha2::Digest::update(&mut h.inner, data)
}

/// `<sha2::Sha256 as Digest>::finalize`: the digest of everything fed. The
/// trusted contract says that it is `sha256` of the input, which is how
/// `digest` computes its result (a new hasher, one `update`, `finalize`).
#[verifier::external_body]
pub fn hasher_finalize(h: Sha256Hasher) -> (r: Vec<u8>)
    ensures
        r@ == sha256(hasher_input(h)),
{
    sha2::Digest::finalize(h.inner).to_vec()
}

} // verus!
