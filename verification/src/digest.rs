//! The hashing capability that a decoder feeds.
//!
//! A decoder needs no particular hash function: it needs something that
//! absorbs bytes and can say what the hash of everything absorbed is.

use vstd::prelude::*;
use digest::Digest;

verus! {

/// A streaming hash: bytes go in piece by piece, and the digest of all of
/// them can be asked for at any point.
pub trait Accumulator: Sized {
    /// Everything absorbed so far, in order. An accumulator that is
    /// verified says here what that is.
    open spec fn absorbed(&self) -> Seq<u8> {
        arbitrary()
    }

    /// The hash function that this accumulator computes. An accumulator
    /// that is verified says here which one it is.
    open spec fn hash(data: Seq<u8>) -> Seq<u8> {
        arbitrary()
    }

    /// An accumulator that has absorbed nothing.
    fn new() -> (fresh: Self)
        ensures
            fresh.absorbed() == Seq::<u8>::empty(),
    ;

    /// Absorbs `data` after everything absorbed before.
    fn absorb(&mut self, data: &[u8])
        ensures
            final(self).absorbed() == old(self).absorbed() + data@,
    ;

    /// The digest of everything absorbed so far. The accumulator goes on
    /// from where it is.
    fn finalize(&self) -> (digest: Vec<u8>)
        ensures
            digest@ == Self::hash(self.absorbed()),
    ;
}

/// `sha2::Sha256`, the streaming SHA-256 hasher. Nothing is known of what
/// is inside one but what the functions below say.
#[verifier::external_type_specification]
#[verifier::external_body]
pub struct ExSha256(sha2::Sha256);

/// The bytes that a SHA-256 hasher has been given since it was made.
pub uninterp spec fn sha256_input(hasher: sha2::Sha256) -> Seq<u8>;

/// The SHA-256 digest of `data`.
pub uninterp spec fn sha256(data: Seq<u8>) -> Seq<u8>;

/// `Digest::new` for `sha2::Sha256`: a hasher in its initial state, which
/// has been given no input.
#[verifier::external_body]
fn sha256_new() -> (hasher: sha2::Sha256)
    ensures
        sha256_input(hasher) == Seq::<u8>::empty(),
{
    sha2::Sha256::new()
}

/// `Digest::update` for `sha2::Sha256`: the hasher processes `data` after
/// the input it has had so far.
#[verifier::external_body]
fn sha256_update(hasher: &mut sha2::Sha256, data: &[u8])
    ensures
        sha256_input(*final(hasher)) == sha256_input(*old(hasher)) + data@,
{
    hasher.update(data)
}

/// `Clone::clone` for `sha2::Sha256`: a second hasher in the same state,
/// which has had the same input.
#[verifier::external_body]
fn sha256_clone(hasher: &sha2::Sha256) -> (copy: sha2::Sha256)
    ensures
        sha256_input(copy) == sha256_input(*hasher),
{
    hasher.clone()
}

/// `Digest::finalize` for `sha2::Sha256`: the digest of the input that the
/// hasher has had, as a vector of bytes.
#[verifier::external_body]
fn sha256_finalize(hasher: sha2::Sha256) -> (digest: Vec<u8>)
    ensures
        digest@ == sha256(sha256_input(hasher)),
{
    hasher.finalize().to_vec()
}

/// A SHA-256 digest
pub struct Sha256Accumulator {
    hasher: sha2::Sha256,
}

impl Accumulator for Sha256Accumulator {
    closed spec fn absorbed(&self) -> Seq<u8> {
        sha256_input(self.hasher)
    }

    open spec fn hash(data: Seq<u8>) -> Seq<u8> {
        sha256(data)
    }

    fn new() -> (fresh: Self) {
        Sha256Accumulator { hasher: sha256_new() }
    }

    fn absorb(&mut self, data: &[u8]) {
        sha256_update(&mut self.hasher, data)
    }

    fn finalize(&self) -> (digest: Vec<u8>) {
        sha256_finalize(sha256_clone(&self.hasher))
    }
}

} // verus!
