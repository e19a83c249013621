use dht_node::structs::util::HashId;

#[test]
fn util_test_equal_to_itself() {
    let hash = HashId::new([1; 20]);
    assert!(hash == hash);
}

#[test]
fn util_test_equal_to_same_hash() {
    let hash1 = HashId::new([1; 20]);
    let hash2 = HashId::new([1; 20]);

    assert!(hash1 == hash2);
}

#[test]
fn util_test_not_equal_to_other_hash() {
    let hash1 = HashId::new([1; 20]);
    let hash2 = HashId::new([0; 20]);

    assert_eq!(hash1 == hash2, false);
}

#[test]
fn util_test_simple_ordering() {
    let hash1 = HashId::new([1; 20]);
    let hash2 = HashId::new([0; 20]);

    assert!(hash1 > hash2);
    assert_eq!(hash1 <= hash2, false);
}

#[test]
fn util_test_endianes_ordering() {
    let hash1 = HashId::new([1, 0, 0, 0, 0, 0, 0, 0, 0, 0, 0, 0, 0, 0, 0, 0, 0, 0, 0, 0]);
    let hash2 = HashId::new([
        0, 255, 255, 255, 255, 255, 255, 255, 255, 255, 255, 255, 255, 255, 255, 255, 255, 255,
        255, 255,
    ]);

    assert!(hash1 > hash2);
}

#[test]
fn util_test_distance_to_self_is_null() {
    let hash = HashId::new([17; 20]);
    let empty = HashId::new([0; 20]);

    assert!(hash ^ hash == empty);
}

#[test]
fn util_test_compute_correct_distance() {
    let hash1 = HashId::new([17; 20]);
    let hash2 = HashId::new([255; 20]);

    let correct = HashId::new([238; 20]);

    assert!(hash1 ^ hash2 == correct);
}

#[test]
fn test_from_str_reads_forty_hex_digits_of_either_case() {
    let lower = HashId::from_str("00112233445566778899aabbccddeeff01234567".to_string()).unwrap();
    let upper = HashId::from_str("00112233445566778899AABBCCDDEEFF01234567".to_string()).unwrap();
    let expected = HashId::new([
        0x00, 0x11, 0x22, 0x33, 0x44, 0x55, 0x66, 0x77, 0x88, 0x99, 0xaa, 0xbb, 0xcc, 0xdd, 0xee,
        0xff, 0x01, 0x23, 0x45, 0x67,
    ]);
    assert_eq!(lower, expected);
    assert_eq!(upper, expected);
}

#[test]
fn test_from_str_rejects_other_text() {
    assert!(HashId::from_str("".to_string()).is_err());
    assert!(HashId::from_str("fff".to_string()).is_err());
    assert!(HashId::from_str("ff".repeat(19)).is_err());
    assert!(HashId::from_str("ff".repeat(21)).is_err());
    assert!(HashId::from_str("zz".repeat(20)).is_err());
    assert!(HashId::from_str("f".repeat(39)).is_err());
}

#[test]
fn test_to_str_writes_lower_case_digits() {
    let id = HashId::new([
        0x00, 0x11, 0x22, 0x33, 0x44, 0x55, 0x66, 0x77, 0x88, 0x99, 0xaa, 0xbb, 0xcc, 0xdd, 0xee,
        0xff, 0x01, 0x23, 0x45, 0x67,
    ]);
    assert_eq!(id.to_str(), "00112233445566778899aabbccddeeff01234567");
    assert_eq!(HashId::from_str(id.to_str()).unwrap(), id);
}

#[test]
fn test_xor_with_zero_is_identity() {
    let id = HashId::new([0xa5; 20]);
    let zero = HashId::new([0; 20]);
    assert!(id ^ zero == id);
    assert!(id.xor(&zero) == id);
}

#[test]
fn test_xor_commutes() {
    let a = HashId::new([0x3c; 20]);
    let mut bytes = [0u8; 20];
    bytes[7] = 0x81;
    bytes[19] = 0x01;
    let b = HashId::new(bytes);
    assert!(a ^ b == b ^ a);
}

#[test]
fn test_order_is_total_on_samples() {
    let mut low = [0u8; 20];
    low[19] = 1;
    let mut mid = [0u8; 20];
    mid[18] = 1;
    let samples = [
        HashId::new([0; 20]),
        HashId::new(low),
        HashId::new(mid),
        HashId::new([0x7f; 20]),
        HashId::new([0xff; 20]),
    ];
    for i in 0..samples.len() {
        for j in 0..samples.len() {
            let (a, b) = (samples[i], samples[j]);
            assert_eq!(a < b, i < j);
            assert_eq!(a == b, i == j);
            assert_eq!(a > b, i > j);
            assert_eq!(a.at_most(&b), i <= j);
            assert_eq!(a.below(&b), i < j);
            assert_eq!(a.cmp(&b), i.cmp(&j));
        }
    }
}
