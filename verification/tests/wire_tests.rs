use ddhpsi::group::Point;
use ddhpsi::points::generate_points;
use ddhpsi::wire::{decode_points, encode_points, message_len};

#[test]
fn encode_writes_count_then_encodings() {
    let points = generate_points(2);
    let m = encode_points(&points);
    assert_eq!(m.len(), 8 + 64);
    assert_eq!(&m[0..8], &[2, 0, 0, 0, 0, 0, 0, 0]);
    assert_eq!(&m[8..40], &points[0].to_bytes());
    assert_eq!(&m[40..72], &points[1].to_bytes());
}

#[test]
fn encode_empty_set() {
    assert_eq!(encode_points(&Vec::new()), vec![0u8; 8]);
}

#[test]
fn decode_gives_back_what_encode_wrote() {
    let points = generate_points(5);
    let decoded = decode_points(&encode_points(&points)).expect("well formed");
    assert_eq!(decoded.len(), 5);
    for i in 0..5 {
        assert_eq!(decoded[i].to_bytes(), points[i].to_bytes());
    }
    assert_eq!(decode_points(&[0u8; 8]).expect("empty set").len(), 0);
}

#[test]
fn decode_rejects_short_header() {
    assert!(decode_points(&[1, 0, 0]).is_none());
    assert!(decode_points(&[]).is_none());
}

#[test]
fn decode_rejects_wrong_count() {
    let mut m = encode_points(&generate_points(2));
    m[0] = 3;
    assert!(decode_points(&m).is_none());
    let mut m = encode_points(&generate_points(2));
    m.push(0);
    assert!(decode_points(&m).is_none());
    let m = encode_points(&generate_points(2));
    assert!(decode_points(&m[0..40]).is_none());
}

#[test]
fn decode_rejects_invalid_point() {
    let mut m = encode_points(&generate_points(2));
    m[40] = 1;
    for b in &mut m[41..72] {
        *b = 0;
    }
    assert!(Point::from_bytes(m[40..72].try_into().unwrap()).is_none());
    assert!(decode_points(&m).is_none());
}

#[test]
fn message_len_reads_header() {
    assert_eq!(message_len(&[0; 8]), Some(8));
    assert_eq!(message_len(&[3, 0, 0, 0, 0, 0, 0, 0]), Some(8 + 96));
    assert_eq!(message_len(&[0, 1, 0, 0, 0, 0, 0, 0]), Some(8 + 32 * 256));
    assert_eq!(message_len(&[0xff; 8]), None);
}
