use safe_core::crypto::{symmetric_decrypt, symmetric_encrypt};
use safe_core::random::{generate_nonce, generate_random_vector, generate_symm_enc_key};
use safe_core::CoreError;

// AEAD round trip: decryption with the same key recovers the plaintext.
#[test]
fn aead_round_trip() {
    let key = generate_symm_enc_key();
    let plain = generate_random_vector::<u8>(100).unwrap();
    let blob = symmetric_encrypt(&plain, &key, None).unwrap();
    assert_ne!(blob, plain);
    let out = symmetric_decrypt(&blob, &key).unwrap();
    assert_eq!(out, plain);
}

// A caller-supplied nonce gives a deterministic container.
#[test]
fn aead_fixed_nonce_is_deterministic() {
    let key = generate_symm_enc_key();
    let nonce = generate_nonce();
    let plain = b"some bytes".to_vec();
    let blob1 = symmetric_encrypt(&plain, &key, Some(&nonce)).unwrap();
    let blob2 = symmetric_encrypt(&plain, &key, Some(&nonce)).unwrap();
    assert_eq!(blob1, blob2);
    assert_eq!(symmetric_decrypt(&blob1, &key).unwrap(), plain);
}

// AEAD rejects the wrong key with a decipher failure.
#[test]
fn aead_rejects_wrong_key() {
    let k1 = generate_symm_enc_key();
    let mut k2 = generate_symm_enc_key();
    while k2 == k1 {
        k2 = generate_symm_enc_key();
    }
    let plain = generate_random_vector::<u8>(64).unwrap();
    let blob = symmetric_encrypt(&plain, &k1, None).unwrap();
    assert_eq!(
        symmetric_decrypt(&blob, &k2),
        Err(CoreError::SymmetricDecipherFailure)
    );
}

// AEAD rejects a tampered ciphertext with a decipher failure.
#[test]
fn aead_rejects_tampering() {
    let key = generate_symm_enc_key();
    let plain = b"authenticated bytes".to_vec();
    let mut blob = symmetric_encrypt(&plain, &key, None).unwrap();
    let last = blob.len() - 1;
    blob[last] ^= 0x01;
    assert_eq!(
        symmetric_decrypt(&blob, &key),
        Err(CoreError::SymmetricDecipherFailure)
    );
}

// A blob that is no container at all is a serialization failure.
#[test]
fn aead_rejects_malformed_container() {
    let key = generate_symm_enc_key();
    assert_eq!(
        symmetric_decrypt(&vec![1, 2, 3], &key),
        Err(CoreError::SerializationFailure)
    );
    assert_eq!(
        symmetric_decrypt(&Vec::new(), &key),
        Err(CoreError::SerializationFailure)
    );
}

// The empty plaintext round-trips too.
#[test]
fn aead_empty_plaintext() {
    let key = generate_symm_enc_key();
    let blob = symmetric_encrypt(&Vec::new(), &key, None).unwrap();
    assert_eq!(symmetric_decrypt(&blob, &key).unwrap(), Vec::<u8>::new());
}
