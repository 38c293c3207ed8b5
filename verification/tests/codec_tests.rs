use num_bigint::BigUint;
use uniformity_scan::codec::encode;

#[test]
fn encode_reads_bytes_little_endian() {
    // 0x01 0x02 is 2*256 + 1 = 513, not 0x0102 = 258.
    let key = encode(&vec![0x01u8, 0x02]);
    assert_eq!(key, BigUint::from(513u16));
    assert_ne!(key, BigUint::from(258u16));
}

#[test]
fn encode_matches_reference_construction() {
    let block = vec![0xffu8, 0x00, 0x80];
    assert_eq!(encode(&block), BigUint::from_bytes_le(&block));
    assert_eq!(encode(&block), BigUint::from(0x8000ffu32));
}

#[test]
fn encode_is_injective_on_distinct_contents() {
    let a = encode(&vec![1u8, 0]);
    let b = encode(&vec![0u8, 1]);
    assert_ne!(a, b);
}

#[test]
fn encode_exceeds_native_width() {
    // A 16-byte block encodes beyond any 64-bit value.
    let block = vec![0xffu8; 16];
    let key = encode(&block);
    assert!(key > BigUint::from(u64::MAX));
    let expected = BigUint::from_bytes_le(&[0xffu8; 16]);
    assert_eq!(key, expected);
}
