use ddhpsi::encoding_set::{all_distinct, count_common};

fn enc(x: u8, y: u8) -> [u8; 32] {
    let mut b = [0u8; 32];
    b[0] = x;
    b[31] = y;
    b
}

#[test]
fn count_common_counts_distinct_shared_encodings() {
    let a = vec![enc(1, 0), enc(2, 0), enc(3, 0), enc(1, 0)];
    let b = vec![enc(1, 0), enc(3, 0), enc(4, 0), enc(3, 0)];
    assert_eq!(count_common(&a, &b), 2);
    assert_eq!(count_common(&b, &a), 2);
}

#[test]
fn count_common_tells_apart_encodings_with_one_key() {
    // Same first eight bytes, different last byte: same bucket, different encodings.
    let a = vec![enc(1, 1), enc(1, 2)];
    let b = vec![enc(1, 2), enc(1, 3)];
    assert_eq!(count_common(&a, &b), 1);
}

#[test]
fn count_common_with_empty_lists() {
    assert_eq!(count_common(&Vec::new(), &vec![enc(1, 0)]), 0);
    assert_eq!(count_common(&vec![enc(1, 0)], &Vec::new()), 0);
}

#[test]
fn all_distinct_finds_repeats() {
    assert!(all_distinct(&Vec::new()));
    assert!(all_distinct(&vec![enc(1, 1), enc(1, 2), enc(2, 1)]));
    assert!(!all_distinct(&vec![enc(1, 1), enc(2, 1), enc(1, 1)]));
}
