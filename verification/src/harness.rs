//! A signing round trip over a signature core that runs elsewhere.
//!
//! The core makes keys, signs and verifies, each with one of two keystream
//! generators. A round trip makes a key pair, signs a message with it and
//! verifies the signature, all with the same generator.

use vstd::prelude::*;

verus! {

/// The keystream generator that the core runs an operation with.
#[derive(Clone, Copy, Debug, PartialEq, Eq, Structural)]
pub enum Backend {
    /// The generator that computes its cipher in software.
    Software,
    /// The generator that has the hardware compute its cipher.
    Hardware,
}

/// The operations of a signature scheme.
pub trait SignatureCore {
    type PublicKey;

    type SecretKey;

    type Signature;

    /// Makes the key pair of `seed`.
    fn make_keys(&self, backend: Backend, seed: &[u8]) -> (Self::PublicKey, Self::SecretKey);

    /// Signs `msg`.
    fn sign(&self, backend: Backend, msg: &[u8], sk: &Self::SecretKey) -> Self::Signature;

    /// Tells whether `signature` is a signature of `msg`.
    fn verify(
        &self,
        backend: Backend,
        msg: &[u8],
        signature: &Self::Signature,
        pk: &Self::PublicKey,
    ) -> bool;
}

/// Whether a round trip over `core` with `backend` can come to make the key
/// pair `pk`, `sk`, the signature `signature` and the verdict `accepted`.
pub open spec fn is_round_trip<C: SignatureCore>(
    core: &C,
    backend: Backend,
    msg: &[u8],
    seed: &[u8],
    pk: C::PublicKey,
    sk: C::SecretKey,
    signature: C::Signature,
    accepted: bool,
) -> bool {
    &&& call_ensures(C::make_keys, (core, backend, seed), (pk, sk))
    &&& call_ensures(C::sign, (core, backend, msg, &sk), signature)
    &&& call_ensures(C::verify, (core, backend, msg, &signature, &pk), accepted)
}

/// What a round trip hands out: the signature if it was accepted.
pub fn outcome<S>(signature: S, accepted: bool) -> (r: Option<S>)
    ensures
        r == if accepted {
            Some(signature)
        } else {
            None
        },
{
    if accepted {
        Some(signature)
    } else {
        None
    }
}

/// Makes the key pair of `seed`, signs `msg` with it and verifies the
/// signature, all with `backend`. Returns the signature if it was accepted.
pub fn round_trip<C: SignatureCore>(core: &C, backend: Backend, msg: &[u8], seed: &[u8]) -> (r:
    Option<C::Signature>)
    ensures
        exists|pk: C::PublicKey, sk: C::SecretKey, signature: C::Signature, accepted: bool|
            is_round_trip(core, backend, msg, seed, pk, sk, signature, accepted) && r == if accepted {
                Some(signature)
            } else {
                None
            },
{
    let (pk, sk) = core.make_keys(backend, seed);
    let signature = core.sign(backend, msg, &sk);
    let accepted = core.verify(backend, msg, &signature, &pk);
    proof {
        assert(is_round_trip(core, backend, msg, seed, pk, sk, signature, accepted));
    }
    outcome(signature, accepted)
}

/// A round trip with the software generator.
pub fn compute_software<C: SignatureCore>(core: &C, msg: &[u8], seed: &[u8]) -> (r: Option<
    C::Signature,
>)
    ensures
        exists|pk: C::PublicKey, sk: C::SecretKey, signature: C::Signature, accepted: bool|
            is_round_trip(core, Backend::Software, msg, seed, pk, sk, signature, accepted) && r
                == if accepted {
                Some(signature)
            } else {
                None
            },
{
    round_trip(core, Backend::Software, msg, seed)
}

/// A round trip with the hardware generator.
pub fn compute_hardware<C: SignatureCore>(core: &C, msg: &[u8], seed: &[u8]) -> (r: Option<
    C::Signature,
>)
    ensures
        exists|pk: C::PublicKey, sk: C::SecretKey, signature: C::Signature, accepted: bool|
            is_round_trip(core, Backend::Hardware, msg, seed, pk, sk, signature, accepted) && r
                == if accepted {
                Some(signature)
            } else {
                None
            },
{
    round_trip(core, Backend::Hardware, msg, seed)
}

} // verus!
