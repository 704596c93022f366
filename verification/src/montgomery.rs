//! The local timing run on the Montgomery form of Curve25519: each party's
//! inputs are the hashes of decimal numbers, multiplied into the X25519 base
//! point, then masked with the parties' scalars.
//!
//! A `MontgomeryPoint` is held by its 32 bytes. `MontgomeryPoint` compares
//! points by their u-coordinates modulo p = 2^255 - 19. Every point here is
//! the result of a multiplication, whose bytes `curve25519_dalek` writes as
//! the canonical encoding of the u-coordinate, a number below p (the
//! contracts state this), so two such points are equal exactly when their
//! bytes are.

use crate::config::{decimal, digits_value, is_digit};
use crate::group::le_nat;
use curve25519_dalek::constants::X25519_BASEPOINT;
use curve25519_dalek::montgomery::MontgomeryPoint;
use curve25519_dalek::scalar::Scalar;
use sha2::Sha512;
use vstd::prelude::*;

verus! {

/// The prime p = 2^255 - 19 of the field of Curve25519.
pub open spec fn field_prime() -> nat {
    57896044618658097711785492504343953926634992332820282019728792003956564819949nat
}

/// Whether `u` is the canonical encoding of a field element: a number below
/// p, little-endian.
pub open spec fn is_canonical_u(u: Seq<u8>) -> bool {
    le_nat(u) < field_prime()
}

/// The bytes of `X25519_BASEPOINT * Scalar::hash_from_bytes::<Sha512>(input)`.
pub uninterp spec fn montgomery_hash(input: Seq<u8>) -> Seq<u8>;

/// The bytes of `MontgomeryPoint(u) * Scalar::from_bytes_mod_order(scalar)`.
pub uninterp spec fn montgomery_scale(u: Seq<u8>, scalar: Seq<u8>) -> Seq<u8>;

/// Calls `Scalar::hash_from_bytes::<Sha512>` and multiplies the X25519 base
/// point by the result (the `Mul` impl of `MontgomeryPoint`), returning the
/// product's bytes. Claims that they are `montgomery_hash` of the input and,
/// since the product's bytes are written by `FieldElement::as_bytes`, whose
/// encoding is canonical, that they are below p.
#[verifier::external_body]
fn hash_to_montgomery(input: &[u8]) -> (u: [u8; 32])
    ensures
        u@ == montgomery_hash(input@),
        is_canonical_u(u@),
{
    (X25519_BASEPOINT * Scalar::hash_from_bytes::<Sha512>(input)).to_bytes()
}

/// Multiplies `MontgomeryPoint(*u)` by `Scalar::from_bytes_mod_order(*scalar)`
/// (the `Mul` impl of `MontgomeryPoint`) and returns the product's bytes.
/// Claims that they are `montgomery_scale` of the two arguments and, since
/// they are written by `FieldElement::as_bytes`, whose encoding is
/// canonical, that they are below p.
#[verifier::external_body]
fn mul_montgomery(u: &[u8; 32], scalar: &[u8; 32]) -> (product: [u8; 32])
    ensures
        product@ == montgomery_scale(u@, scalar@),
        is_canonical_u(product@),
{
    (MontgomeryPoint(*u) * Scalar::from_bytes_mod_order(*scalar)).to_bytes()
}

/// The ASCII bytes of the decimal text of `n`, as `n.to_string().as_bytes()`
/// gives them.
pub open spec fn decimal_ascii(n: nat) -> Seq<u8> {
    ascii_of(decimal(n))
}

/// The bytes of the ASCII characters `s`.
pub open spec fn ascii_of(s: Seq<char>) -> Seq<u8> {
    s.map_values(|c: char| c as u8)
}

/// Appends the decimal text of `n` to `out`.
fn push_decimal(n: usize, out: &mut Vec<u8>)
    ensures
        final(out)@ == old(out)@ + decimal_ascii(n as nat),
    decreases n,
{
    if n >= 10 {
        push_decimal(n / 10, out);
    }
    let d: u8 = (n % 10) as u8;
    let c: u8 = 48u8 + d;
    out.push(c);
    proof {
        let dec = decimal(n as nat);
        if n >= 10 {
            assert(dec == decimal((n / 10) as nat).push(crate::config::digit_char((n % 10) as nat)));
            assert(decimal_ascii(n as nat) =~= decimal_ascii((n / 10) as nat).push(c));
        } else {
            assert(decimal_ascii(n as nat) =~= seq![c]);
        }
        assert(final(out)@ =~= old(out)@ + decimal_ascii(n as nat));
    }
}

/// The inputs `start .. start + count`: input `i` is the base point
/// multiplied by the hash of the decimal text of `i`.
pub fn montgomery_inputs(start: usize, count: usize) -> (points: Vec<[u8; 32]>)
    requires
        start + count <= usize::MAX,
    ensures
        points.len() == count,
        forall|k: int| 0 <= k < count ==> #[trigger] points@[k]@ == montgomery_hash(decimal_ascii((start + k) as nat)),
        forall|k: int| 0 <= k < count ==> is_canonical_u(#[trigger] points@[k]@),
{
    let mut points: Vec<[u8; 32]> = Vec::new();
    let mut k: usize = 0;
    while k < count
        invariant
            k <= count,
            start + count <= usize::MAX,
            points.len() == k,
            forall|j: int| 0 <= j < k ==> #[trigger] points@[j]@ == montgomery_hash(decimal_ascii((start + j) as nat)),
            forall|j: int| 0 <= j < k ==> is_canonical_u(#[trigger] points@[j]@),
        decreases count - k,
    {
        let mut text: Vec<u8> = Vec::new();
        push_decimal(start + k, &mut text);
        assert(text@ =~= decimal_ascii((start + k) as nat));
        points.push(hash_to_montgomery(text.as_slice()));
        k = k + 1;
    }
    points
}

/// Every point of `points` multiplied by the scalar whose bytes are
/// `scalar`, in the same order.
pub fn montgomery_cmult(points: &[[u8; 32]], scalar: &[u8; 32]) -> (result: Vec<[u8; 32]>)
    ensures
        result.len() == points.len(),
        forall|i: int| 0 <= i < points.len() ==> #[trigger] result@[i]@ == montgomery_scale(points@[i]@, scalar@),
        forall|i: int| 0 <= i < points.len() ==> is_canonical_u(#[trigger] result@[i]@),
{
    let mut result: Vec<[u8; 32]> = Vec::new();
    let mut i: usize = 0;
    while i < points.len()
        invariant
            i <= points.len(),
            result.len() == i,
            forall|j: int| 0 <= j < i ==> #[trigger] result@[j]@ == montgomery_scale(points@[j]@, scalar@),
            forall|j: int| 0 <= j < i ==> is_canonical_u(#[trigger] result@[j]@),
        decreases points.len() - i,
    {
        result.push(mul_montgomery(&points[i], scalar));
        i = i + 1;
    }
    result
}

/// The number that the ASCII decimal digits `s` write.
pub open spec fn ascii_digits_value(s: Seq<u8>) -> nat
    decreases s.len(),
{
    if s.len() == 0 {
        0
    } else {
        ascii_digits_value(s.drop_last()) * 10 + (s.last() - 48) as nat
    }
}

proof fn lemma_ascii_of_digits(s: Seq<char>)
    requires
        forall|i: int| 0 <= i < s.len() ==> is_digit(#[trigger] s[i]),
    ensures
        ascii_digits_value(ascii_of(s)) == digits_value(s),
        forall|i: int| 0 <= i < s.len() ==> 48 <= #[trigger] ascii_of(s)[i] <= 57,
    decreases s.len(),
{
    let m = ascii_of(s);
    assert forall|i: int| 0 <= i < s.len() implies 48 <= #[trigger] m[i] <= 57 by {
        assert(is_digit(s[i]));
    }
    if s.len() > 0 {
        assert(m.drop_last() =~= ascii_of(s.drop_last()));
        lemma_ascii_of_digits(s.drop_last());
        assert(is_digit(s.last()));
    }
}

/// The text that input `n` is hashed from is the canonical decimal text of
/// `n`, as `n.to_string()` writes it: at least one byte, only ASCII digits,
/// read back as `n`, and no leading `0` unless `n` is zero.
pub proof fn lemma_decimal_ascii_is_canonical(n: nat)
    ensures
        decimal_ascii(n).len() > 0,
        forall|i: int| 0 <= i < decimal_ascii(n).len() ==> 48 <= #[trigger] decimal_ascii(n)[i] <= 57,
        ascii_digits_value(decimal_ascii(n)) == n,
        decimal_ascii(n)[0] == 48 ==> n == 0,
{
    crate::config::lemma_decimal(n);
    lemma_ascii_of_digits(decimal(n));
}

} // verus!
