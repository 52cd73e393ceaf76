use safe_core::engine::{create, extract_value};
use safe_core::object::ImmutableObject;
use safe_core::random::{generate_random_vector, generate_symm_enc_key};
use safe_core::{CoreError, MAX_CHUNK_BYTES};

fn create_and_retrieve(size: usize) {
    let value = generate_random_vector::<u8>(size).unwrap();

    // Unencrypted
    {
        let value_before = value.clone();
        let (data, chunks) = create(&value_before, None).unwrap();
        let value_after = extract_value(&data, &chunks, None).unwrap();
        assert_eq!(value_after, value_before);
    }

    // Encrypted
    {
        let value_before = value.clone();
        let key = generate_symm_enc_key();
        let (data, chunks) = create(&value_before, Some(&key)).unwrap();
        let value_after = extract_value(&data, &chunks, Some(&key)).unwrap();
        assert_eq!(value_after, value_before);
    }

    // Put unencrypted, retrieve encrypted - should fail
    {
        let key = generate_symm_enc_key();
        let (data, chunks) = create(&value, None).unwrap();
        assert!(extract_value(&data, &chunks, Some(&key)).is_err());
    }

    // Put encrypted, retrieve unencrypted - should fail
    {
        let key = generate_symm_enc_key();
        let (data, chunks) = create(&value, Some(&key)).unwrap();
        assert!(extract_value(&data, &chunks, None).is_err());
    }
}

#[test]
fn create_and_retrieve_1kb() {
    create_and_retrieve(1024)
}

#[test]
fn create_and_retrieve_1mb() {
    create_and_retrieve(1024 * 1024)
}

#[test]
fn create_and_retrieve_2mb() {
    create_and_retrieve(2 * 1024 * 1024)
}

// Every object returned by create stays within the maximum chunk size.
#[test]
fn create_respects_size_limit() {
    let value = generate_random_vector::<u8>(1024).unwrap();
    let (data, _chunks) = create(&value, None).unwrap();
    assert!(data.serialise().len() <= MAX_CHUNK_BYTES);

    let key = generate_symm_enc_key();
    let (data2, _chunks2) = create(&value, Some(&key)).unwrap();
    assert!(data2.serialise().len() <= MAX_CHUNK_BYTES);
}

// Creating the same value twice without a key yields the same name.
#[test]
fn create_is_deterministic_without_key() {
    let value = generate_random_vector::<u8>(2048).unwrap();
    let (data1, _chunks1) = create(&value, None).unwrap();
    let (data2, _chunks2) = create(&value, None).unwrap();
    assert_eq!(data1.name(), data2.name());
    assert_eq!(data1.value(), data2.value());

    let other = generate_random_vector::<u8>(2048).unwrap();
    let (data3, _chunks3) = create(&other, None).unwrap();
    assert_ne!(data1.name(), data3.name());
}

// The engine refuses payloads below the engine's three-byte minimum.
#[test]
fn create_rejects_tiny_payload() {
    assert!(matches!(
        create(&vec![7u8], None),
        Err(CoreError::SelfEncryptionFailure)
    ));
    let three = vec![1u8, 2u8, 3u8];
    let (data, chunks) = create(&three, None).unwrap();
    assert_eq!(extract_value(&data, &chunks, None).unwrap(), three);
}

// Object names are 32-byte content hashes, not the value itself.
#[test]
fn object_names_itself_from_value() {
    let obj = ImmutableObject::new(vec![1, 2, 3, 4, 5]);
    assert_eq!(obj.name().len(), 32);
    let same = ImmutableObject::new(vec![1, 2, 3, 4, 5]);
    assert_eq!(obj.name(), same.name());
    let other = ImmutableObject::new(vec![1, 2, 3, 4, 6]);
    assert_ne!(obj.name(), other.name());
}

// The object wire form round-trips, and junk is rejected.
#[test]
fn object_serialisation_round_trip() {
    let obj = ImmutableObject::new(vec![9u8; 100]);
    let ser = obj.serialise();
    let back = ImmutableObject::deserialise(&ser).unwrap();
    assert_eq!(back.name(), obj.name());
    assert_eq!(back.value(), obj.value());

    assert!(matches!(
        ImmutableObject::deserialise(&vec![1, 2, 3]),
        Err(CoreError::SerializationFailure)
    ));
}

// An object whose value is no envelope is rejected cleanly on extraction.
#[test]
fn extract_rejects_non_envelope() {
    let obj = ImmutableObject::new(vec![42u8; 64]);
    let chunks = Vec::new();
    assert_eq!(
        extract_value(&obj, &chunks, None),
        Err(CoreError::SerializationFailure)
    );
}
