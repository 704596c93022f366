use curve25519_dalek::ristretto::{CompressedRistretto, RistrettoPoint};
use curve25519_dalek::scalar::Scalar;
use ddhpsi::group::Point;
use sha2::Sha512;

fn scalar_bytes(x: u64) -> [u8; 32] {
    Scalar::from(x).to_bytes()
}

#[test]
fn hash_from_bytes_matches_dalek() {
    let p = Point::hash_from_bytes(b"To really appreciate architecture");
    let expected = RistrettoPoint::hash_from_bytes::<Sha512>(b"To really appreciate architecture")
        .compress()
        .to_bytes();
    assert_eq!(p.to_bytes(), expected);
}

#[test]
fn hash_from_bytes_depends_on_input() {
    let p = Point::hash_from_bytes(&[0, 0, 0, 0]);
    let q = Point::hash_from_bytes(&[1, 0, 0, 0]);
    assert_ne!(p.to_bytes(), q.to_bytes());
}

#[test]
fn mul_matches_dalek() {
    let p = Point::hash_from_bytes(b"point");
    let s = Scalar::from(12345u64);
    let expected = (RistrettoPoint::hash_from_bytes::<Sha512>(b"point") * s).compress().to_bytes();
    let got = p.mul(&s.to_bytes());
    assert_eq!(got.to_bytes(), expected);
    assert_ne!(got.to_bytes(), p.to_bytes());
}

#[test]
fn mul_by_one_is_identity_map() {
    let p = Point::hash_from_bytes(b"one");
    assert_eq!(p.mul(&scalar_bytes(1)).to_bytes(), p.to_bytes());
}

#[test]
fn mul_reduces_scalar_bytes_modulo_group_order() {
    // The group order l, little-endian: multiplying by it gives the identity.
    let l: [u8; 32] = [
        0xed, 0xd3, 0xf5, 0x5c, 0x1a, 0x63, 0x12, 0x58, 0xd6, 0x9c, 0xf7, 0xa2, 0xde, 0xf9, 0xde,
        0x14, 0, 0, 0, 0, 0, 0, 0, 0, 0, 0, 0, 0, 0, 0, 0, 0x10,
    ];
    let p = Point::hash_from_bytes(b"order");
    assert_eq!(p.mul(&l).to_bytes(), [0u8; 32]);
}

#[test]
fn masks_commute() {
    let p = Point::hash_from_bytes(b"commute");
    let a = scalar_bytes(7);
    let b = scalar_bytes(11);
    assert_eq!(p.mul(&a).mul(&b).to_bytes(), p.mul(&b).mul(&a).to_bytes());
}

#[test]
fn from_bytes_accepts_canonical_encodings() {
    let identity = Point::from_bytes([0u8; 32]).expect("identity encodes");
    assert_eq!(identity.to_bytes(), [0u8; 32]);
    let p = Point::hash_from_bytes(b"roundtrip");
    let q = Point::from_bytes(p.to_bytes()).expect("compressed points decode");
    assert_eq!(q.to_bytes(), p.to_bytes());
}

#[test]
fn from_bytes_rejects_other_bytes() {
    // Odd first byte: a negative field element, never canonical.
    let mut bytes = [0u8; 32];
    bytes[0] = 1;
    assert!(Point::from_bytes(bytes).is_none());
    assert!(CompressedRistretto(bytes).decompress().is_none());
    assert!(Point::from_bytes([0xffu8; 32]).is_none());
}

#[test]
fn nonzero_mask_keeps_points_apart() {
    let p = Point::hash_from_bytes(b"p");
    let q = Point::hash_from_bytes(b"q");
    let s = scalar_bytes(99);
    assert_ne!(p.mul(&s).to_bytes(), q.mul(&s).to_bytes());
}
