use safe_core::crypto::derive_secrets;
use safe_core::display::bin_data_format;
use safe_core::random::{
    generate_random_string, generate_random_vector, generate_readable_string,
};

const SIZE: usize = 10;

// Test `generate_random_string` and that the results are not repeated.
#[test]
fn random_string() {
    let str0 = generate_random_string(SIZE).unwrap();
    let str1 = generate_random_string(SIZE).unwrap();
    let str2 = generate_random_string(SIZE).unwrap();

    assert_ne!(str0, str1);
    assert_ne!(str0, str2);
    assert_ne!(str1, str2);

    assert_eq!(str0.chars().count(), SIZE);
    assert_eq!(str1.chars().count(), SIZE);
    assert_eq!(str2.chars().count(), SIZE);
}

// Test `generate_random_vector` and that the results are not repeated.
#[test]
fn random_vector() {
    let vec0 = generate_random_vector::<u8>(SIZE).unwrap();
    let vec1 = generate_random_vector::<u8>(SIZE).unwrap();
    let vec2 = generate_random_vector::<u8>(SIZE).unwrap();

    assert_ne!(vec0, vec1);
    assert_ne!(vec0, vec2);
    assert_ne!(vec1, vec2);

    assert_eq!(vec0.len(), SIZE);
    assert_eq!(vec1.len(), SIZE);
    assert_eq!(vec2.len(), SIZE);
}

// Test derivation of distinct password, keyword, and pin secrets.
#[test]
fn secrets_derivation() {
    // Random pass-phrase
    {
        let secret_0 = generate_random_string(SIZE).unwrap();
        let secret_1 = generate_random_string(SIZE).unwrap();
        let (password, keyword, pin) = derive_secrets(secret_0.as_bytes(), secret_1.as_bytes());
        assert_ne!(pin, keyword);
        assert_ne!(password, pin);
        assert_ne!(password, keyword);
    }

    // Nullary pass-phrase
    {
        let secret_0 = String::new();
        let secret_1 = String::new();
        let (password, keyword, pin) = derive_secrets(secret_0.as_bytes(), secret_1.as_bytes());
        assert_ne!(pin, keyword);
        assert_ne!(password, pin);
        assert_eq!(password, keyword);
    }
}

// The three derived secrets are always 64-byte vectors.
#[test]
fn secrets_are_64_bytes() {
    let (password, keyword, pin) = derive_secrets(b"locator", b"passphrase");
    assert_eq!(password.len(), 64);
    assert_eq!(keyword.len(), 64);
    assert_eq!(pin.len(), 64);
    // A digest differs from its input.
    assert_ne!(password, b"passphrase".to_vec());
}

// Readable strings have exactly the requested length and only ASCII
// alphanumeric characters.
#[test]
fn readable_string_shape() {
    let s = generate_readable_string(32).unwrap();
    assert_eq!(s.chars().count(), 32);
    assert!(s.chars().all(|c| c.is_ascii_alphanumeric()));

    let empty = generate_readable_string(0).unwrap();
    assert_eq!(empty.len(), 0);
}

// Random unicode strings never hold the NUL character.
#[test]
fn random_string_excludes_nul() {
    let s = generate_random_string(200).unwrap();
    assert_eq!(s.chars().count(), 200);
    assert!(s.chars().all(|c| c != '\u{0}'));
}

// The display format of short data lists every byte in decimal.
#[test]
fn bin_data_format_short() {
    assert_eq!(bin_data_format(&[]), "[ [] ]");
    assert_eq!(bin_data_format(&[1, 2, 3]), "[ [1, 2, 3] ]");
    assert_eq!(bin_data_format(&[0, 255, 42]), "[ [0, 255, 42] ]");
    assert_eq!(bin_data_format(&[9, 10, 99, 100, 101, 254, 7]), "[ [9, 10, 99, 100, 101, 254, 7] ]");
}

// The display format of longer data shows the outer four bytes in hex.
#[test]
fn bin_data_format_long() {
    assert_eq!(
        bin_data_format(&[0x00, 0xff, 0x10, 0x20, 0xaa, 0x05, 0x3c, 0x3d]),
        "[ 00 ff 10 20..aa 05 3c 3d ]"
    );
    assert_eq!(
        bin_data_format(&[1, 2, 3, 4, 5, 6, 7, 8, 9, 10]),
        "[ 01 02 03 04..07 08 09 0a ]"
    );
}
