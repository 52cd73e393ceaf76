//! Symmetric authenticated encryption and secret derivation.
//!
//! The AEAD is AES-128-SIV: deterministic, misuse-resistant, with a 32-byte
//! key (the construction consumes two subkeys) and a 16-byte nonce. A sealed
//! message travels as a framed container holding the nonce and the
//! ciphertext. All cryptographic failure modes of opening collapse into one
//! error so that callers cannot distinguish them.

use vstd::prelude::*;

use crate::codec::{decode_framed, encode_framed, lemma_framed_injective, spec_framed};
use crate::random::generate_nonce;
use crate::CoreError;
use aes_siv::aead::{Aead, KeyInit};
use sha2::Digest;

verus! {

/// Length of the symmetric encryption key.
pub const SYM_ENC_KEY_LEN: usize = 32;

/// Length of the nonce used for symmetric encryption.
pub const SYM_ENC_NONCE_LEN: usize = 16;

/// Symmetric encryption key.
pub type SymEncKey = [u8; 32];

/// Symmetric encryption nonce.
pub type SymEncNonce = [u8; 16];

/// The ciphertext that AES-128-SIV produces from a key, a nonce and a
/// plaintext.
pub uninterp spec fn siv_seal(key: Seq<u8>, nonce: Seq<u8>, pt: Seq<u8>) -> Seq<u8>;

/// Relies on aes_siv::Aes128SivAead::encrypt: SIV is a deterministic AEAD,
/// so the ciphertext is a function of key, nonce and plaintext alone, and
/// sealing with the fixed two headers of the AEAD interface cannot fail.
/// The ciphertext carries the 16-byte synthetic IV as a prefix tag, so it
/// is exactly 16 bytes longer than the plaintext.
#[verifier::external_body]
fn siv_seal_call(key: &SymEncKey, nonce: &SymEncNonce, pt: &Vec<u8>) -> (r: Option<Vec<u8>>)
    ensures
        r is Some,
        r->0@ == siv_seal(key@, nonce@, pt@),
        r->0@.len() == pt@.len() + 16,
{
    let cipher = aes_siv::Aes128SivAead::new(&(*key).into());
    cipher.encrypt(&(*nonce).into(), pt.as_slice()).ok()
}

/// Relies on aes_siv::Aes128SivAead::decrypt: opening a sealed message with
/// the sealing key and nonce recovers exactly the sealed plaintext, and —
/// since opening recomputes the synthetic IV over the decrypted bytes and
/// the keystream is an involution — whatever opens successfully is the
/// seal of the returned plaintext. Anything else is rejected with an
/// authentication error.
#[verifier::external_body]
fn siv_open_call(key: &SymEncKey, nonce: &SymEncNonce, ct: &Vec<u8>) -> (r: Option<Vec<u8>>)
    ensures
        forall|pt: Seq<u8>|
            ct@ == siv_seal(key@, nonce@, pt) ==> r is Some && r->0@ == pt,
        r matches Some(p) ==> ct@ == siv_seal(key@, nonce@, p@),
{
    let cipher = aes_siv::Aes128SivAead::new(&(*key).into());
    cipher.decrypt(&(*nonce).into(), ct.as_slice()).ok()
}

/// The full wire form of an encrypted message: the nonce followed by the
/// framed SIV ciphertext.
pub open spec fn spec_sym_encrypt(pt: Seq<u8>, key: Seq<u8>, nonce: Seq<u8>) -> Seq<u8> {
    spec_framed(nonce, siv_seal(key, nonce, pt))
}

/// Symmetric encryption.
/// If `nonce` is `None`, then it will be generated randomly.
pub fn symmetric_encrypt(
    plain_text: &Vec<u8>,
    secret_key: &SymEncKey,
    nonce: Option<&SymEncNonce>,
) -> (r: Result<Vec<u8>, CoreError>)
    ensures
        r is Ok,
        match nonce {
            Some(nn) => r->Ok_0@ == spec_sym_encrypt(plain_text@, secret_key@, nn@),
            None => exists|n: Seq<u8>|
                n.len() == 16 && r->Ok_0@ == #[trigger] spec_sym_encrypt(
                    plain_text@,
                    secret_key@,
                    n,
                ),
        },
{
    let n: SymEncNonce = match nonce {
        Some(nn) => *nn,
        None => generate_nonce(),
    };
    let ct = siv_seal_call(secret_key, &n, plain_text).unwrap();
    let mut nv: Vec<u8> = Vec::new();
    nv.extend_from_slice(vstd::array::array_as_slice(&n));
    let c = encode_framed(&nv, &ct);
    proof {
        assert(c@ == spec_sym_encrypt(plain_text@, secret_key@, n@));
    }
    Ok(c)
}

/// `blob` is the encryption of `pt` under `key` for some well-formed nonce.
pub open spec fn decrypts_to(blob: Seq<u8>, key: Seq<u8>, pt: Seq<u8>) -> bool {
    exists|n: Seq<u8>| n.len() == 16 && blob == #[trigger] spec_sym_encrypt(pt, key, n)
}

/// Symmetric decryption: parses the container, then opens the ciphertext.
/// A malformed container is a serialization failure; a rejected ciphertext
/// (wrong key, truncation, tampering) is a decipher failure. A success is
/// never silent corruption: whatever comes back `Ok` is a plaintext whose
/// encryption under this key the input really is.
pub fn symmetric_decrypt(cipher_text: &Vec<u8>, secret_key: &SymEncKey) -> (r: Result<
    Vec<u8>,
    CoreError,
>)
    ensures
        forall|pt: Seq<u8>|
            #[trigger] decrypts_to(cipher_text@, secret_key@, pt) ==> r is Ok && r->Ok_0@ == pt,
        r is Ok ==> decrypts_to(cipher_text@, secret_key@, r->Ok_0@),
        r is Err ==> (r->Err_0 == CoreError::SerializationFailure || r->Err_0
            == CoreError::SymmetricDecipherFailure),
        (r is Err && r->Err_0 == CoreError::SerializationFailure) <==> (forall|
            h: Seq<u8>,
            c: Seq<u8>,
        |
            h.len() == 16 ==> cipher_text@ != spec_framed(h, c)),
{
    match decode_framed(cipher_text, 16) {
        None => Err(CoreError::SerializationFailure),
        Some((nv, ct)) => {
            let mut n: SymEncNonce = [0u8; 16];
            let mut i: usize = 0;
            while i < 16
                invariant
                    i <= 16,
                    nv@.len() == 16,
                    forall|j: int| 0 <= j < i ==> n@[j] == nv@[j],
                decreases 16 - i,
            {
                n[i] = nv[i];
                i = i + 1;
            }
            proof {
                assert(n@ =~= nv@);
            }
            match siv_open_call(secret_key, &n, &ct) {
                Some(pt) => {
                    proof {
                        assert(cipher_text@ == spec_sym_encrypt(pt@, secret_key@, nv@));
                        assert(decrypts_to(cipher_text@, secret_key@, pt@));
                        assert forall|p: Seq<u8>|
                            #[trigger] decrypts_to(cipher_text@, secret_key@, p) implies pt@
                            == p by {
                            let m = choose|m: Seq<u8>|
                                m.len() == 16 && cipher_text@ == #[trigger] spec_sym_encrypt(
                                    p,
                                    secret_key@,
                                    m,
                                );
                            lemma_framed_injective(m, siv_seal(secret_key@, m, p), nv@, ct@);
                        }
                    }
                    Ok(pt)
                },
                None => {
                    proof {
                        assert forall|p: Seq<u8>|
                            !decrypts_to(cipher_text@, secret_key@, p) by {
                            if decrypts_to(cipher_text@, secret_key@, p) {
                                let m = choose|m: Seq<u8>|
                                    m.len() == 16 && cipher_text@ == #[trigger] spec_sym_encrypt(
                                        p,
                                        secret_key@,
                                        m,
                                    );
                                lemma_framed_injective(m, siv_seal(secret_key@, m, p), nv@, ct@);
                            }
                        }
                    }
                    Err(CoreError::SymmetricDecipherFailure)
                },
            }
        },
    }
}

/// The 64-byte SHA-512 digest of a byte string.
pub uninterp spec fn sha512_of(data: Seq<u8>) -> Seq<u8>;

/// Relies on sha2::Sha512: the digest is 64 bytes and a function of the
/// input bytes alone.
#[verifier::external_body]
fn sha512_digest(data: &[u8]) -> (r: Vec<u8>)
    ensures
        r@ == sha512_of(data@),
        r@.len() == 64,
{
    sha2::Sha512::digest(data).to_vec()
}

/// Derive Password, Keyword and PIN (in order) from an account locator and
/// passphrase. All three are 64-byte digests: the password hashes the
/// passphrase, the keyword hashes the locator, and the PIN hashes the upper
/// half of the keyword.
pub fn derive_secrets(acc_locator: &[u8], acc_password: &[u8]) -> (r: (Vec<u8>, Vec<u8>, Vec<u8>))
    ensures
        r.0@ == sha512_of(acc_password@),
        r.1@ == sha512_of(acc_locator@),
        r.2@ == sha512_of(sha512_of(acc_locator@).subrange(32, 64)),
        r.0@.len() == 64,
        r.1@.len() == 64,
        r.2@.len() == 64,
{
    let locator_hash = sha512_digest(acc_locator);
    let suffix = vstd::slice::slice_subrange(locator_hash.as_slice(), 32, 64);
    let pin = sha512_digest(suffix);
    let password = sha512_digest(acc_password);
    (password, locator_hash, pin)
}

/// AEAD round trip: every blob that `symmetric_encrypt` produces for a
/// plaintext and key satisfies the condition under which
/// `symmetric_decrypt` is owed exactly that plaintext back.
pub proof fn lemma_aead_round_trip(pt: Seq<u8>, key: Seq<u8>, n: Seq<u8>)
    requires
        n.len() == 16,
    ensures
        decrypts_to(spec_sym_encrypt(pt, key, n), key, pt),
{
}

} // verus!
