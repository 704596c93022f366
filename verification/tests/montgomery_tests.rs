use curve25519_dalek::constants::X25519_BASEPOINT;
use curve25519_dalek::montgomery::MontgomeryPoint;
use curve25519_dalek::scalar::Scalar;
use ddhpsi::encoding_set::{all_distinct, count_common};
use ddhpsi::montgomery::{montgomery_cmult, montgomery_inputs};
use sha2::Sha512;

#[test]
fn montgomery_inputs_hash_decimal_text() {
    let points = montgomery_inputs(8, 4);
    assert_eq!(points.len(), 4);
    for (k, p) in points.iter().enumerate() {
        let i = 8 + k;
        let s = Scalar::hash_from_bytes::<Sha512>(i.to_string().as_bytes());
        assert_eq!(*p, (X25519_BASEPOINT * s).to_bytes());
    }
    assert!(montgomery_inputs(3, 0).is_empty());
}

#[test]
fn montgomery_cmult_masks_each_in_order() {
    let points = montgomery_inputs(0, 3);
    let s = Scalar::from(77u64);
    let out = montgomery_cmult(&points, &s.to_bytes());
    assert_eq!(out.len(), 3);
    for i in 0..3 {
        assert_eq!(out[i], (MontgomeryPoint(points[i]) * s).to_bytes());
        assert_ne!(out[i], points[i]);
    }
}

#[test]
fn timing_run_scenario_counts_the_overlap() {
    // The shape of the timing run: n1 inputs, n2 inputs starting at
    // n1 - overlap; masking with a then b and with b then a keeps exactly the
    // overlap in common.
    let (n1, n2, overlap) = (20usize, 50usize, 5usize);
    let p1 = montgomery_inputs(0, n1);
    let p2 = montgomery_inputs(n1 - overlap, n2 + 1);
    let a = Scalar::from(1234567u64).to_bytes();
    let b = Scalar::from(7654321u64).to_bytes();
    let p1ab = montgomery_cmult(&montgomery_cmult(&p1[..n1], &a), &b);
    let p2ba = montgomery_cmult(&montgomery_cmult(&p2[..n2], &b), &a);
    assert!(all_distinct(&p1ab));
    assert_eq!(count_common(&p1ab, &p2ba), overlap);
}

#[test]
fn montgomery_outputs_are_canonical() {
    let p = montgomery_inputs(0, 5);
    let q = montgomery_cmult(&p, &Scalar::from(3u64).to_bytes());
    for u in p.iter().chain(q.iter()) {
        // Canonical encodings lie below 2^255 - 19, so their top bit is clear.
        assert_eq!(u[31] & 0x80, 0);
        assert_eq!(MontgomeryPoint(*u).to_bytes(), *u);
    }
}
