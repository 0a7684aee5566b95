use imgdedup::codec::{decode_line, encode_line};
use imgdedup::formats::recognized_extension;
use imgdedup::phash::{distance, within_distance, HashVal};

#[test]
fn distance_counts_differing_bits() {
    let a = HashVal::from_bytes(vec![0x0F]);
    let b = HashVal::from_bytes(vec![0x00]);
    assert_eq!(distance(&a, &b), 4);

    let c = HashVal::from_bytes(vec![0xFF, 0x00]);
    let d = HashVal::from_bytes(vec![0x00, 0xFF]);
    assert_eq!(distance(&c, &d), 16);

    let e = HashVal::from_bytes(vec![0b0000_0111, 0, 0, 0]);
    let z = HashVal::from_bytes(vec![0, 0, 0, 0]);
    assert_eq!(distance(&e, &z), 3);
    assert_eq!(distance(&e, &e), 0);
}

#[test]
fn distance_ranges_over_common_bytes() {
    // Bytes beyond the shorter hash do not count, as with the hasher's own
    // metric over differing sizes.
    let a = HashVal::from_bytes(vec![0xFF]);
    let b = HashVal::from_bytes(vec![0xFF, 0xFF]);
    assert_eq!(distance(&a, &b), 0);
}

#[test]
fn within_distance_is_strict() {
    let a = HashVal::from_bytes(vec![0b0000_0111]);
    let b = HashVal::from_bytes(vec![0]);
    assert!(!within_distance(&a, &b, 3));
    assert!(within_distance(&a, &b, 4));
    assert!(!within_distance(&a, &b, 0));
}

#[test]
fn encode_known_values() {
    assert_eq!(encode_line(&vec![77, 97, 110]), b"TWFu".to_vec());
    assert_eq!(encode_line(&vec![77, 97]), b"TWE".to_vec());
    assert_eq!(encode_line(&vec![77]), b"TQ".to_vec());
    assert_eq!(encode_line(&vec![]), b"".to_vec());
    assert_eq!(encode_line(&vec![251, 239, 190]), b"++++".to_vec());
    assert_eq!(encode_line(&vec![255, 255, 255, 255]), b"/////w".to_vec());
}

#[test]
fn decode_known_values() {
    assert_eq!(decode_line(&b"TWFu".to_vec()), Some(vec![77, 97, 110]));
    assert_eq!(decode_line(&b"TWE".to_vec()), Some(vec![77, 97]));
    assert_eq!(decode_line(&b"TQ".to_vec()), Some(vec![77]));
    assert_eq!(decode_line(&b"".to_vec()), Some(vec![]));
}

#[test]
fn decode_rejects_malformed_lines() {
    // A single digit can encode nothing.
    assert_eq!(decode_line(&b"T".to_vec()), None);
    // Characters outside the alphabet, padding included.
    assert_eq!(decode_line(&b"TQ==".to_vec()), None);
    assert_eq!(decode_line(&b"%%%".to_vec()), None);
    assert_eq!(decode_line(&b"TW u".to_vec()), None);
    // Unused trailing bits must be zero: 'R' carries a nonzero remainder.
    assert_eq!(decode_line(&b"TR".to_vec()), None);
    assert_eq!(decode_line(&b"TWF".to_vec()), None);
}

#[test]
fn encode_decode_round_trip() {
    let mut bytes: Vec<u8> = Vec::new();
    for len in 0..48u32 {
        bytes.clear();
        let mut x: u32 = len.wrapping_mul(2654435761).wrapping_add(17);
        for _ in 0..len {
            x = x.wrapping_mul(1664525).wrapping_add(1013904223);
            bytes.push((x >> 24) as u8);
        }
        let line = encode_line(&bytes);
        assert_eq!(decode_line(&line), Some(bytes.clone()));
    }
}

#[test]
fn recognized_extensions_match_case_insensitively() {
    assert!(recognized_extension(&b"jpg".to_vec()));
    assert!(recognized_extension(&b"JPG".to_vec()));
    assert!(recognized_extension(&b"JpEg".to_vec()));
    assert!(recognized_extension(&b"png".to_vec()));
    assert!(recognized_extension(&b"PNG".to_vec()));
    assert!(!recognized_extension(&b"gif".to_vec()));
    assert!(!recognized_extension(&b"jpgx".to_vec()));
    assert!(!recognized_extension(&b"avif".to_vec()));
    assert!(!recognized_extension(&b"".to_vec()));
}
