//! The hash functions the telemetry commitments are built from: SHA-256 over
//! bytes, and the Poseidon sponge over elements of the BN254 scalar field.
//!
//! Field elements are carried as their canonical 32-byte little-endian
//! encodings.
use generic_array::typenum::{U1, U2};
use nova_snark::frontend::gadgets::poseidon::{
    IOPattern, Simplex, Sponge, SpongeAPI, SpongeOp, SpongeTrait, Strength,
};
use nova_snark::provider::bn256_grumpkin::bn256::Scalar;
use sha2::{Digest, Sha256};
use vstd::prelude::*;

use crate::encoding::le_value;

verus! {

/// The SHA-256 digest of a byte string.
pub uninterp spec fn sha256(data: Seq<u8>) -> Seq<u8>;

/// sha2's `Sha256::digest`: the contract says only that the 32 returned bytes
/// are the SHA-256 digest of `data`, a name that nothing here unfolds.
#[verifier::external_body]
pub(crate) fn sha256_digest(data: &[u8]) -> (r: [u8; 32])
    ensures
        r@ == sha256(data@),
{
    Sha256::digest(data).into()
}

/// The order of the BN254 scalar field.
pub open spec fn scalar_modulus() -> nat {
    0x30644e72e131a029b85045b68181585d2833e84879b9709143e1f593f0000001nat
}

/// A canonical encoding of a field element: 32 little-endian bytes below the modulus.
pub open spec fn is_scalar_repr(b: Seq<u8>) -> bool {
    b.len() == 32 && le_value(b) < scalar_modulus()
}

/// The encodings of a sequence of field elements.
pub open spec fn reprs(xs: Seq<[u8; 32]>) -> Seq<Seq<u8>> {
    xs.map_values(|x: [u8; 32]| x@)
}

/// The Poseidon sponge of arity two, standard strength, absorbing the given
/// field elements and squeezing one.
pub uninterp spec fn poseidon_u2(inputs: Seq<Seq<u8>>) -> Seq<u8>;

/// The Poseidon sponge of arity one, standard strength, absorbing the given
/// field elements and squeezing one.
pub uninterp spec fn poseidon_u1(inputs: Seq<Seq<u8>>) -> Seq<u8>;

/// nova-snark's Poseidon sponge (arity two, standard strength), run as
/// start / absorb all / squeeze one / finish over the decoded field elements.
/// The contract claims: the call succeeds exactly when every input is a
/// canonical encoding (halo2curves' `Fr::from_bytes` accepts exactly the
/// little-endian values below the modulus), the output is the named digest of
/// the inputs, and it is canonical (`Fr::to_bytes` writes the reduced value).
/// The sponge asserts that an absorb count fits in 31 bits, so the input is
/// required to be shorter than `2^31`.
#[allow(non_snake_case)]
#[verifier::external_body]
pub fn hash_U2(input: &Vec<[u8; 32]>) -> (r: Option<[u8; 32]>)
    requires
        input.len() < 0x8000_0000,
    ensures
        (r is Some) == (forall|i: int| 0 <= i < input.len() ==> is_scalar_repr(#[trigger] input@[i]@)),
        r matches Some(h) ==> h@ == poseidon_u2(reprs(input@)) && is_scalar_repr(h@),
{
    let mut xs: Vec<Scalar> = Vec::new();
    for b in input.iter() {
        xs.push(Option::<Scalar>::from(Scalar::from_bytes(b))?);
    }
    let p = Sponge::<Scalar, U2>::api_constants(Strength::Standard);
    let mut sponge = Sponge::new_with_constants(&p, Simplex);
    let acc = &mut ();
    let n = xs.len() as u32;
    sponge.start(IOPattern(vec![SpongeOp::Absorb(n), SpongeOp::Squeeze(1)]), None, acc);
    SpongeAPI::absorb(&mut sponge, n, &xs, acc);
    let out = SpongeAPI::squeeze(&mut sponge, 1, acc);
    sponge.finish(acc).ok()?;
    Some(out[0].to_bytes())
}

/// The same sponge with arity one; the contract claims what `hash_U2`'s does.
#[allow(non_snake_case)]
#[verifier::external_body]
pub fn hash_U1(input: &Vec<[u8; 32]>) -> (r: Option<[u8; 32]>)
    requires
        input.len() < 0x8000_0000,
    ensures
        (r is Some) == (forall|i: int| 0 <= i < input.len() ==> is_scalar_repr(#[trigger] input@[i]@)),
        r matches Some(h) ==> h@ == poseidon_u1(reprs(input@)) && is_scalar_repr(h@),
{
    let mut xs: Vec<Scalar> = Vec::new();
    for b in input.iter() {
        xs.push(Option::<Scalar>::from(Scalar::from_bytes(b))?);
    }
    let p = Sponge::<Scalar, U1>::api_constants(Strength::Standard);
    let mut sponge = Sponge::new_with_constants(&p, Simplex);
    let acc = &mut ();
    let n = xs.len() as u32;
    sponge.start(IOPattern(vec![SpongeOp::Absorb(n), SpongeOp::Squeeze(1)]), None, acc);
    SpongeAPI::absorb(&mut sponge, n, &xs, acc);
    let out = SpongeAPI::squeeze(&mut sponge, 1, acc);
    sponge.finish(acc).ok()?;
    Some(out[0].to_bytes())
}

} // verus!
