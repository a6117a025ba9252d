use taskboard::rate_limit::xor_hash::{bytes_to_u64s, XorHasher};

#[test]
fn bytes_to_u64s_test() {
    assert_eq!(
        bytes_to_u64s(&[1, 2, 3, 4, 5, 6, 7, 8, 9, 10, 11]),
        vec![0x807060504030201, 0xb0a09]
    );
    assert_eq!(bytes_to_u64s(&[1]), vec![0x01]);
}

#[test]
fn bytes_to_u64s_drops_zero_words() {
    assert_eq!(bytes_to_u64s(&[]), Vec::<u64>::new());
    assert_eq!(bytes_to_u64s(&[0, 0, 0, 0, 0, 0, 0, 0, 5]), vec![5]);
    assert_eq!(bytes_to_u64s(&[1, 0, 0, 0, 0, 0, 0, 0]), vec![1]);
}

#[test]
fn xor_hasher_xors_words() {
    let mut h = XorHasher::default();
    assert_eq!(h.finish(), 0);
    h.write(&[1, 2, 3, 4, 5, 6, 7, 8, 9, 10, 11]);
    assert_eq!(h.finish(), 0x807060504030201 ^ 0xb0a09);
    h.write(&[9, 10, 11]);
    assert_eq!(h.finish(), 0x807060504030201);
}
