//! Digests and the collision-resistant hash primitive.
//!
//! The ledger commits to its accounts with a Merkle tree; the tree's leaf and
//! node digests come from the Poseidon hash over the BLS12-381 scalar field.
//! The hash itself is an external collaborator: the two calls into it are the
//! only trusted items of this crate, and everything above them speaks of the
//! uninterpreted digest functions `leaf_hash_of` and `node_hash_of`.

use vstd::prelude::*;
use ark_bls12_381::Fr;
use ark_crypto_primitives::crh::{CRHScheme, TwoToOneCRHScheme};
use ark_crypto_primitives::crh::poseidon::{CRH, TwoToOneCRH};
use ark_crypto_primitives::sponge::poseidon::{find_poseidon_ark_and_mds, PoseidonConfig};
use ark_ff::{BigInteger, PrimeField};

verus! {

/// A digest: the fixed-size output of the collision-resistant hash, held as
/// the canonical little-endian byte encoding of a field element.
pub struct Digest {
    pub bytes: Vec<u8>,
}

impl View for Digest {
    type V = Seq<u8>;

    open spec fn view(&self) -> Seq<u8> {
        self.bytes@
    }
}

impl Clone for Digest {
    fn clone(&self) -> (r: Self)
        ensures
            r@ == self@,
    {
        Digest { bytes: self.bytes.clone() }
    }
}

/// The digest of a single leaf value.
pub uninterp spec fn leaf_hash_of(value: u64) -> Seq<u8>;

/// The digest of an internal node from its two children, in order.
pub uninterp spec fn node_hash_of(left: Seq<u8>, right: Seq<u8>) -> Seq<u8>;

/// Relies on `ark_crypto_primitives::crh::poseidon::CRH::evaluate` over the
/// BLS12-381 scalar field. The sponge constants are rebuilt on every call by
/// `find_poseidon_ark_and_mds` from fixed arguments, and that derivation is
/// deterministic, so the digest is a function of `value` alone; `evaluate`
/// returns `Ok` on every input.
#[verifier::external_body]
fn leaf_hash(value: u64) -> (r: Digest)
    ensures
        r@ == leaf_hash_of(value),
{
    let (ark, mds) = find_poseidon_ark_and_mds::<Fr>(255, 2, 8, 57, 0);
    let cfg = PoseidonConfig::new(8, 57, 5, mds, ark, 2, 1);
    let f = CRH::<Fr>::evaluate(&cfg, [Fr::from(value)].as_slice()).unwrap();
    Digest { bytes: f.into_bigint().to_bytes_le() }
}

/// Relies on `ark_crypto_primitives::crh::poseidon::TwoToOneCRH::compress`
/// over the BLS12-381 scalar field, with the same fixed, deterministically
/// derived sponge constants as `leaf_hash`; the digest is a function of the
/// two child encodings alone, and `compress` returns `Ok` on every input.
#[verifier::external_body]
fn node_hash(left: &Digest, right: &Digest) -> (r: Digest)
    ensures
        r@ == node_hash_of(left@, right@),
{
    let (ark, mds) = find_poseidon_ark_and_mds::<Fr>(255, 2, 8, 57, 0);
    let cfg = PoseidonConfig::new(8, 57, 5, mds, ark, 2, 1);
    let l = Fr::from_le_bytes_mod_order(&left.bytes);
    let r = Fr::from_le_bytes_mod_order(&right.bytes);
    let f = TwoToOneCRH::<Fr>::compress(&cfg, &l, &r).unwrap();
    Digest { bytes: f.into_bigint().to_bytes_le() }
}

/// Deterministic, collision-resistant map from a leaf value to a digest.
pub fn leaf_digest(value: u64) -> (d: Digest)
    ensures
        d@ == leaf_hash_of(value),
{
    leaf_hash(value)
}

/// Order-sensitive combination of two child digests into a parent digest.
pub fn node_digest(left: &Digest, right: &Digest) -> (d: Digest)
    ensures
        d@ == node_hash_of(left@, right@),
{
    node_hash(left, right)
}

/// Byte-for-byte comparison of two digests.
pub fn digest_eq(a: &Digest, b: &Digest) -> (r: bool)
    ensures
        r == (a@ == b@),
{
    if a.bytes.len() != b.bytes.len() {
        return false;
    }
    let mut i: usize = 0;
    while i < a.bytes.len()
        invariant
            a@.len() == b@.len(),
            i <= a@.len(),
            forall|j: int| 0 <= j < i ==> a@[j] == b@[j],
        decreases a@.len() - i,
    {
        if a.bytes[i] != b.bytes[i] {
            return false;
        }
        i += 1;
    }
    proof {
        assert(a@ =~= b@);
    }
    true
}

/// Hash-window layout marker: 4-bit windows, 256 windows. Drivers that pair
/// the ledger with a window-based (Pedersen-style) hash use it to fix the
/// input capacity of one hash invocation; the Poseidon authenticator in this
/// crate derives its own constants and does not read it.
pub struct Window4x256;

impl Window4x256 {
    /// Width of one window, in bits.
    pub fn window_size() -> (r: usize)
        ensures
            r == 4,
    {
        4
    }

    /// Number of windows in one hash invocation.
    pub fn num_windows() -> (r: usize)
        ensures
            r == 256,
    {
        256
    }
}

} // verus!
