use num::bigint::BigUint;
use summercash::amount::Amount;
use summercash::bytes::compare_bytes;
use summercash::hash::hex_decode;

fn value_of(a: &Amount) -> BigUint {
    BigUint::from_bytes_le(&a.bytes)
}

#[test]
fn addition_carries_past_u64() {
    let a = Amount::from_le_bytes(u64::MAX.to_le_bytes().to_vec());
    let one = Amount::from_le_bytes(vec![1]);
    let sum = a.add(&one);
    assert_eq!(sum.bytes, vec![0, 0, 0, 0, 0, 0, 0, 0, 1]);
}

#[test]
fn checked_subtraction() {
    let ten = Amount::from_le_bytes(vec![10]);
    let three = Amount::from_le_bytes(vec![3]);
    assert_eq!(value_of(&ten.checked_sub(&three).unwrap()), BigUint::from(7u32));
    assert!(three.checked_sub(&ten).is_none());
    assert_eq!(ten.checked_sub(&ten).unwrap().bytes, vec![0]);
}

#[test]
fn comparison_reads_numbers_not_bytes() {
    let big = Amount::from_le_bytes(vec![0, 1]);
    let small = Amount::from_le_bytes(vec![255]);
    assert!(small.less_than(&big));
    assert!(!big.less_than(&small));
    assert_eq!(Amount::zero().bytes, vec![0]);
}

#[test]
fn hex_text_of_bytes() {
    let h = summercash::hash::Hash::new(vec![0x00, 0xab, 0x10, 0xff]);
    assert_eq!(h.to_str(), "00ab10ff");
    assert_eq!(summercash::hash::Hash::zero().bytes, vec![0; 32]);
}

#[test]
fn byte_order_comparison() {
    assert!(compare_bytes(&vec![1, 2], &vec![1, 3]) < 0);
    assert!(compare_bytes(&vec![1, 2], &vec![1, 2]) == 0);
    assert!(compare_bytes(&vec![2], &vec![1, 9]) > 0);
    assert!(compare_bytes(&vec![1], &vec![1, 0]) < 0);
}

#[test]
fn hex_decoding_inverts_hex_text() {
    assert_eq!(hex_decode(&b"00ab10ff".to_vec()), Some(vec![0x00, 0xab, 0x10, 0xff]));
    assert_eq!(hex_decode(&b"".to_vec()), Some(vec![]));
    assert_eq!(hex_decode(&b"abc".to_vec()), None);
    assert_eq!(hex_decode(&b"AB".to_vec()), None);
    assert_eq!(hex_decode(&b"zz".to_vec()), None);
}

#[test]
fn arithmetic_results_are_canonical() {
    let padded = Amount::from_le_bytes(vec![5, 0, 0]);
    let one = Amount::from_le_bytes(vec![1]);
    assert_eq!(padded.add(&one).bytes, vec![6]);
    assert_eq!(padded.checked_sub(&padded).unwrap().bytes, vec![0]);
    let big = Amount::from_le_bytes(vec![0, 0, 1]);
    assert_eq!(big.checked_sub(&one).unwrap().bytes, vec![255, 255]);
}
