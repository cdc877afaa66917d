use btclib::U256;
#[test]
fn hash() {
    let mut serialized: Vec<u8> = Vec::new();
    ciborium::into_writer(&144usize, &mut serialized).unwrap();
    let hash = btclib::sha256::Hash::hash(&serialized);
    println!("{}", hash.to_hex_string());

    assert_eq!(hash.0.bits(), 255);
    let value: btclib::U256 = hash.0;
    assert_eq!(value, hash.0);
}

#[test]
fn zero() {
    assert!(btclib::sha256::Hash::zero().0.is_zero(), "is zero");
}

#[test]
fn hash_is_sha256_read_most_significant_byte_first() {
    let hash = btclib::sha256::Hash::hash(b"hello");
    assert_eq!(
        hash,
        btclib::sha256::Hash(U256(
            0x73043362938b9824,
            0x1b161e5c1fa7425e,
            0x26e83b2ac5b9e29e,
            0x2cf24dba5fb0a30e
        ))
    );
    assert_eq!(
        hash.to_hex_string(),
        "2cf24dba5fb0a30e26e83b2ac5b9e29e1b161e5c1fa7425e73043362938b9824"
    );
}

#[test]
fn hash_of_nothing() {
    let hash = btclib::sha256::Hash::hash(&[]);
    assert_eq!(
        hash.to_hex_string(),
        "e3b0c44298fc1c149afbf4c8996fb92427ae41e4649b934ca495991b7852b855"
    );
    assert_eq!(hash.0.bits(), 256);
}

#[test]
fn hash_differs_from_its_input() {
    let data = [7u8; 32];
    let hash = btclib::sha256::Hash::hash(&data);
    assert_ne!(hash.as_bytes(), data);
    assert_eq!(hash, btclib::sha256::Hash::hash(&data));
    assert_ne!(hash, btclib::sha256::Hash::hash(&[7u8; 31]));
}

#[test]
fn matches_target_compares_as_numbers() {
    let hash = btclib::sha256::Hash(U256(5, 0, 0, 1));
    assert!(hash.matches_target(U256(5, 0, 0, 1)));
    assert!(hash.matches_target(U256(0, 0, 0, 2)));
    assert!(!hash.matches_target(U256(4, 0, 0, 1)));
    assert!(!hash.matches_target(U256(u64::MAX, u64::MAX, u64::MAX, 0)));
    assert!(btclib::sha256::Hash::zero().matches_target(U256(0, 0, 0, 0)));
}

#[test]
fn as_bytes_is_least_significant_first() {
    let hash = btclib::sha256::Hash(U256(0x0807060504030201, 0, 0, 0xff00000000000000));
    let bytes = hash.as_bytes();
    assert_eq!(&bytes[..8], &[1, 2, 3, 4, 5, 6, 7, 8]);
    assert_eq!(bytes[31], 0xff);
    assert_eq!(bytes[30], 0);
    assert_eq!(btclib::sha256::Hash::zero().as_bytes(), [0u8; 32]);
}

#[test]
fn zero_prints_as_one_digit() {
    assert_eq!(btclib::sha256::Hash::zero().to_hex_string(), "0");
}
