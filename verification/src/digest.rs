//! SHA-256 digests of sidecar indexes and source row streams.
use sha2::Digest;
use vstd::prelude::*;

verus! {

/// An incremental SHA-256 state (`sha2::Sha256`, a type alias that Verus cannot declare
/// directly); what it has absorbed is `absorbed(h)`.
#[verifier::external_body]
pub struct Sha256Stream {
    inner: sha2::Sha256,
}

/// The SHA-256 digest of `data` (`sha2::Sha256` finalized after absorbing `data`).
pub uninterp spec fn sha256(data: Seq<u8>) -> Seq<u8>;

/// The bytes a SHA-256 state has absorbed, in order.
pub uninterp spec fn absorbed(h: Sha256Stream) -> Seq<u8>;

/// A fresh SHA-256 state (`Sha256::new`): it has absorbed nothing.
#[verifier::external_body]
pub(crate) fn sha256_new() -> (h: Sha256Stream)
    ensures
        absorbed(h) == Seq::<u8>::empty(),
{
    Sha256Stream { inner: sha2::Sha256::new() }
}

/// Absorb `data` (`Digest::update`): the state has absorbed what it had, then `data`.
#[verifier::external_body]
pub(crate) fn sha256_update(h: &mut Sha256Stream, data: &[u8])
    ensures
        absorbed(*final(h)) == absorbed(*old(h)) + data@,
{
    h.inner.update(data)
}

/// The digest of everything absorbed (`Digest::finalize`).
#[verifier::external_body]
pub(crate) fn sha256_finalize(h: Sha256Stream) -> (r: [u8; 32])
    ensures
        r@ == sha256(absorbed(h)),
{
    h.inner.finalize().into()
}

/// The SHA-256 digest of `data`.
pub fn sha256_digest(data: &[u8]) -> (r: [u8; 32])
    ensures
        r@ == sha256(data@),
{
    let mut h = sha256_new();
    sha256_update(&mut h, data);
    assert(Seq::<u8>::empty() + data@ =~= data@);
    sha256_finalize(h)
}

} // verus!
