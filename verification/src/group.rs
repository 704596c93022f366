//! Ristretto group elements, held by their canonical 32-byte encodings.
//!
//! The Ristretto encoding is canonical: two group elements are equal if and
//! only if their encodings are equal. The library therefore works on
//! encodings; the arithmetic itself is done by `curve25519_dalek`.

use curve25519_dalek::ristretto::{CompressedRistretto, RistrettoPoint};
use curve25519_dalek::scalar::Scalar;
use rand::rngs::OsRng;
use rand::seq::SliceRandom;
use sha2::Sha512;
use vstd::prelude::*;

verus! {

/// Whether `encoding` is the canonical encoding of a Ristretto group element,
/// i.e. whether `CompressedRistretto::decompress` returns `Some` on it.
pub uninterp spec fn ristretto_decodes(encoding: Seq<u8>) -> bool;

/// The encoding of `RistrettoPoint::hash_from_bytes::<Sha512>(input)`.
pub uninterp spec fn ristretto_hash(input: Seq<u8>) -> Seq<u8>;

/// The encoding of the element encoded by `encoding`, multiplied by the
/// scalar `Scalar::from_bytes_mod_order(scalar)`.
pub uninterp spec fn ristretto_scale(encoding: Seq<u8>, scalar: Seq<u8>) -> Seq<u8>;

/// The number whose little-endian bytes are `b`.
pub open spec fn le_nat(b: Seq<u8>) -> nat
    decreases b.len(),
{
    if b.len() == 0 {
        0
    } else {
        b[0] as nat + 256 * le_nat(b.drop_first())
    }
}

/// The order of the Ristretto group, a prime:
/// 2^252 + 27742317777372353535851937790883648493.
pub open spec fn group_order() -> nat {
    7237005577332262213973186563042994240857116359379907606001950938285454250989nat
}

/// A little-endian number is zero exactly when all its bytes are.
pub proof fn lemma_le_nat_zero(b: Seq<u8>)
    ensures
        le_nat(b) == 0 <==> forall|i: int| 0 <= i < b.len() ==> b[i] == 0,
    decreases b.len(),
{
    if b.len() > 0 {
        lemma_le_nat_zero(b.drop_first());
        if le_nat(b) == 0 {
            assert forall|i: int| 0 <= i < b.len() implies b[i] == 0 by {
                if i > 0 {
                    assert(b[i] == b.drop_first()[i - 1]);
                }
            }
        }
        if forall|i: int| 0 <= i < b.len() ==> b[i] == 0 {
            assert forall|i: int| 0 <= i < b.drop_first().len() implies b.drop_first()[i] == 0 by {
                assert(b.drop_first()[i] == b[i + 1]);
            }
        }
    }
}

/// Whether the scalar with bytes `scalar` is zero once reduced modulo the
/// group order, as `Scalar::from_bytes_mod_order` reduces it.
pub open spec fn is_zero_scalar(scalar: Seq<u8>) -> bool {
    le_nat(scalar) % group_order() == 0
}

/// Masking `e` with `s` and then with any `x` gives what masking with `x`
/// and then with `s` gives.
pub open spec fn mask_commutes(e: Seq<u8>, s: Seq<u8>) -> bool {
    forall|x: Seq<u8>| #[trigger] ristretto_scale(ristretto_scale(e, s), x) == ristretto_scale(ristretto_scale(e, x), s)
}

/// No group element other than `e` is masked with `s` into the mask of `e`.
pub open spec fn mask_injective_at(e: Seq<u8>, s: Seq<u8>) -> bool {
    forall|f: Seq<u8>| ristretto_decodes(f) && #[trigger] ristretto_scale(f, s) == ristretto_scale(e, s) ==> f == e
}

/// What is known of masking the element `e` with the scalar `s`: `e` and
/// its mask are group elements, the mask commutes with any other mask, and
/// a nonzero scalar sends no other element to it.
pub open spec fn mask_facts(e: Seq<u8>, s: Seq<u8>) -> bool {
    &&& ristretto_decodes(e)
    &&& ristretto_decodes(ristretto_scale(e, s))
    &&& mask_commutes(e, s)
    &&& !is_zero_scalar(s) ==> mask_injective_at(e, s)
}

/// Calls `CompressedRistretto::decompress` and reports whether it succeeded.
/// Claims only that the answer is `ristretto_decodes` of the bytes, a function
/// of the bytes alone.
#[verifier::external_body]
fn decompress_succeeds(encoding: &[u8; 32]) -> (ok: bool)
    ensures
        ok == ristretto_decodes(encoding@),
{
    CompressedRistretto(*encoding).decompress().is_some()
}

/// Calls `RistrettoPoint::hash_from_bytes::<Sha512>` and returns the
/// compressed result. Claims that the result is `ristretto_hash` of the input
/// and, since `compress` produces the canonical encoding, that it decodes.
#[verifier::external_body]
fn hash_from_bytes_sha512(input: &[u8]) -> (encoding: [u8; 32])
    ensures
        encoding@ == ristretto_hash(input@),
        ristretto_decodes(encoding@),
{
    RistrettoPoint::hash_from_bytes::<Sha512>(input).compress().to_bytes()
}

/// Multiplies the element encoded by `encoding` by the scalar
/// `Scalar::from_bytes_mod_order(scalar)` (the `Mul` impl of
/// `RistrettoPoint`), decompressing first and compressing after. Claims that
/// the result is `ristretto_scale` of the two arguments and, since `compress`
/// produces the canonical encoding, that it decodes. It also claims the two
/// laws of scalar multiplication in the group that `RistrettoPoint`
/// implements, a group of prime order `group_order()`: multiplying the
/// product by any further scalar gives what multiplying by that scalar
/// first gives, and when the scalar is not zero modulo the order, no other
/// group element has the same product. `decompress` is only unwrapped on
/// canonical encodings, which the `requires` demands.
#[verifier::external_body]
fn mul_by_scalar(encoding: &[u8; 32], scalar: &[u8; 32]) -> (product: [u8; 32])
    requires
        ristretto_decodes(encoding@),
    ensures
        product@ == ristretto_scale(encoding@, scalar@),
        ristretto_decodes(product@),
        forall|x: Seq<u8>|
            #[trigger] ristretto_scale(product@, x) == ristretto_scale(
                ristretto_scale(encoding@, x),
                scalar@,
            ),
        !is_zero_scalar(scalar@) ==> forall|f: Seq<u8>|
            ristretto_decodes(f) && #[trigger] ristretto_scale(f, scalar@) == product@ ==> f
                == encoding@,
{
    (CompressedRistretto(*encoding).decompress().unwrap() * Scalar::from_bytes_mod_order(*scalar)).compress().to_bytes()
}

/// Calls `Scalar::random` on the operating system's random source and returns
/// the scalar's bytes (`Scalar::to_bytes`). `Scalar::random` reduces its
/// random input modulo the group order (`from_bytes_mod_order_wide`), and
/// `to_bytes` gives the little-endian bytes of that reduced integer, so the
/// claim is that they read as a number below the group order. Which number
/// comes out rests on chance and is not stated.
#[verifier::external_body]
pub(crate) fn random_scalar_bytes() -> (bytes: [u8; 32])
    ensures
        le_nat(bytes@) < group_order(),
{
    Scalar::random(&mut OsRng).to_bytes()
}

/// Calls `SliceRandom::shuffle` with `rand::thread_rng()`. The source of
/// `shuffle` only swaps elements, so the claim is that the points after the
/// call are those before it, each as often, in some order; which order comes
/// out rests on chance and is not stated.
#[verifier::external_body]
pub(crate) fn shuffle_points(points: &mut Vec<Point>)
    ensures
        final(points)@.to_multiset() == old(points)@.to_multiset(),
{
    points.shuffle(&mut rand::thread_rng());
}

/// An element of the Ristretto group, held as its canonical encoding.
#[derive(Clone, Copy, Debug)]
pub struct Point {
    encoding: [u8; 32],
}

impl View for Point {
    type V = Seq<u8>;

    closed spec fn view(&self) -> Seq<u8> {
        self.encoding@
    }
}

/// The encoding of a point has 32 bytes.
pub broadcast proof fn lemma_point_len(p: Point)
    ensures
        #[trigger] p@.len() == 32,
{
}

impl Point {
    #[verifier::type_invariant]
    spec fn inv(self) -> bool {
        ristretto_decodes(self.encoding@)
    }

    /// The point whose canonical encoding is `bytes`, if `bytes` is one.
    pub fn from_bytes(bytes: [u8; 32]) -> (r: Option<Point>)
        ensures
            r is Some <==> ristretto_decodes(bytes@),
            r matches Some(p) ==> p@ == bytes@,
    {
        if decompress_succeeds(&bytes) {
            Some(Point { encoding: bytes })
        } else {
            None
        }
    }

    /// The canonical encoding of this point.
    pub fn to_bytes(&self) -> (bytes: [u8; 32])
        ensures
            bytes@ == self@,
            ristretto_decodes(bytes@),
    {
        proof {
            use_type_invariant(self);
        }
        self.encoding
    }

    /// The point that `input` hashes to (SHA-512, then the Ristretto map).
    pub fn hash_from_bytes(input: &[u8]) -> (p: Point)
        ensures
            p@ == ristretto_hash(input@),
            ristretto_decodes(p@),
    {
        Point { encoding: hash_from_bytes_sha512(input) }
    }

    /// This point multiplied by the scalar whose bytes are `scalar`, reduced
    /// modulo the group order.
    pub fn mul(&self, scalar: &[u8; 32]) -> (p: Point)
        ensures
            p@ == ristretto_scale(self@, scalar@),
            mask_facts(self@, scalar@),
    {
        proof {
            use_type_invariant(self);
        }
        let p = Point { encoding: mul_by_scalar(&self.encoding, scalar) };
        assert(mask_commutes(self@, scalar@)) by {
            assert forall|x: Seq<u8>| #[trigger] ristretto_scale(ristretto_scale(self@, scalar@), x) == ristretto_scale(ristretto_scale(self@, x), scalar@) by {
                assert(ristretto_scale(p@, x) == ristretto_scale(ristretto_scale(self@, x), scalar@));
            }
        }
        p
    }
}

} // verus!
