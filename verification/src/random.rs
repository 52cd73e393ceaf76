//! Keyed and unkeyed random generation.
//!
//! Each generator first probes the OS entropy source and surfaces an
//! unavailable source as `RandomDataGenerationFailure`; only then does it
//! draw. The string generators promise the shape of what they return:
//! exact length in code points, no NUL character, and for the readable
//! variant only ASCII alphanumerics.

use vstd::prelude::*;

use crate::crypto::{SymEncKey, SymEncNonce};
use crate::CoreError;
use rand::{Rng, RngCore};

verus! {

/// Relies on rand::rngs::OsRng::try_fill_bytes: returns whether the OS
/// entropy source can currently serve random bytes. The generators call
/// this before drawing, so that an unavailable source becomes a typed
/// error instead of an abort inside a draw.
#[verifier::external_body]
fn os_entropy_available() -> bool {
    let mut probe = [0u8; 4];
    rand::rngs::OsRng.try_fill_bytes(&mut probe).is_ok()
}

/// Relies on rand::random: a value drawn from the standard distribution.
/// Nothing is promised of the result. The draw aborts if the OS entropy
/// source fails; callers that owe a typed error probe the source first.
#[verifier::external_body]
fn random_value<T>() -> T where rand::distributions::Standard: rand::distributions::Distribution<
    T,
> {
    rand::random()
}

/// Relies on rand::distributions::Alphanumeric: every sample is one of the
/// ASCII characters A-Z, a-z or 0-9. The draw aborts if the OS entropy
/// source fails; callers that owe a typed error probe the source first.
#[verifier::external_body]
fn random_alnum_byte() -> (b: u8)
    ensures
        is_readable_byte(b),
{
    rand::rngs::OsRng.sample(rand::distributions::Alphanumeric)
}

/// An ASCII alphanumeric byte.
pub open spec fn is_readable_byte(b: u8) -> bool {
    (48 <= b <= 57) || (65 <= b <= 90) || (97 <= b <= 122)
}

/// Relies on std's String::push: appends one character.
#[verifier::external_body]
pub(crate) fn push_char(s: &mut String, c: char)
    ensures
        final(s)@ == old(s)@.push(c),
{
    s.push(c);
}

/// Generates a symmetric encryption key.
pub fn generate_symm_enc_key() -> SymEncKey {
    random_value::<SymEncKey>()
}

/// Generates a nonce for symmetric encryption.
pub fn generate_nonce() -> SymEncNonce {
    random_value::<SymEncNonce>()
}

/// Generates a `String` from `length` random `char`s, excluding the NUL
/// character so that the result stays CString-safe. The byte length of the
/// result is typically larger than `length`, since most randomly drawn
/// characters take several bytes. Fails only when the OS entropy source is
/// unavailable.
pub fn generate_random_string(length: usize) -> (r: Result<String, CoreError>)
    ensures
        r matches Ok(s) ==> s@.len() == length && (forall|i: int|
            0 <= i < length ==> s@[i] != '\u{0}'),
        r is Err ==> r->Err_0 == CoreError::RandomDataGenerationFailure,
{
    if !os_entropy_available() {
        return Err(CoreError::RandomDataGenerationFailure);
    }
    let mut s = String::new();
    let mut count: usize = 0;
    while count < length
        invariant
            count <= length,
            s@.len() == count,
            forall|i: int| 0 <= i < count ==> s@[i] != '\u{0}',
        decreases length - count,
    {
        let c = random_value::<char>();
        // The NUL character must not appear; in the vanishingly rare event
        // that it is drawn, a random readable character stands in for it.
        let c = if c == '\u{0}' {
            random_alnum_byte() as char
        } else {
            c
        };
        push_char(&mut s, c);
        count = count + 1;
    }
    Ok(s)
}

/// Generates a readable `String` of exactly `length` ASCII alphanumeric
/// characters. Fails only when the OS entropy source is unavailable.
pub fn generate_readable_string(length: usize) -> (r: Result<String, CoreError>)
    ensures
        r matches Ok(s) ==> s@.len() == length && (forall|i: int|
            0 <= i < length ==> is_readable_byte(s@[i] as u8)),
        r is Err ==> r->Err_0 == CoreError::RandomDataGenerationFailure,
{
    if !os_entropy_available() {
        return Err(CoreError::RandomDataGenerationFailure);
    }
    let mut s = String::new();
    let mut count: usize = 0;
    while count < length
        invariant
            count <= length,
            s@.len() == count,
            forall|i: int| 0 <= i < count ==> is_readable_byte(s@[i] as u8),
        decreases length - count,
    {
        let b = random_alnum_byte();
        let c = b as char;
        push_char(&mut s, c);
        count = count + 1;
    }
    Ok(s)
}

/// Generates a random vector of the given length. Fails only when the OS
/// entropy source is unavailable.
pub fn generate_random_vector<T>(length: usize) -> (r: Result<Vec<T>, CoreError>) where
    rand::distributions::Standard: rand::distributions::Distribution<T>,

    ensures
        r matches Ok(v) ==> v@.len() == length,
        r is Err ==> r->Err_0 == CoreError::RandomDataGenerationFailure,
{
    if !os_entropy_available() {
        return Err(CoreError::RandomDataGenerationFailure);
    }
    let mut v: Vec<T> = Vec::new();
    let mut count: usize = 0;
    while count < length
        invariant
            count <= length,
            v@.len() == count,
        decreases length - count,
    {
        v.push(random_value::<T>());
        count = count + 1;
    }
    Ok(v)
}

} // verus!
