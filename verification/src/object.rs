//! The content-addressed network object.
//!
//! An object is an inert pair of a name and a value; the name is a
//! deterministic 32-byte hash of the value. The core never violates the
//! invariant that the serialized form of an object it produces stays within
//! `MAX_CHUNK_BYTES`; that bound is stated on the producing functions.

use vstd::prelude::*;

use crate::codec::{decode_framed, encode_framed, spec_framed};
use crate::CoreError;
use sha2::Digest;

verus! {

/// The name of a value: its 32-byte content hash.
pub uninterp spec fn name_of(value: Seq<u8>) -> Seq<u8>;

/// Relies on sha2::Sha256: the digest is 32 bytes and a function of the
/// input bytes alone.
#[verifier::external_body]
fn sha256_digest(value: &Vec<u8>) -> (r: Vec<u8>)
    ensures
        r@ == name_of(value@),
        r@.len() == 32,
{
    sha2::Sha256::digest(value.as_slice()).to_vec()
}

/// An immutable, content-addressed byte container.
pub struct ImmutableObject {
    pub name: Vec<u8>,
    pub value: Vec<u8>,
}

/// The 32-byte name of a value. The digest always has 32 bytes; the
/// normalization makes that length visible to specification-level reasoning
/// as well.
pub open spec fn object_name_of(value: Seq<u8>) -> Seq<u8> {
    if name_of(value).len() == 32 {
        name_of(value)
    } else {
        Seq::new(32, |i: int| 0u8)
    }
}

pub proof fn lemma_object_name_len(value: Seq<u8>)
    ensures
        object_name_of(value).len() == 32,
{
}

/// The wire form of an object with the given name and value.
pub open spec fn spec_object_bytes(name: Seq<u8>, value: Seq<u8>) -> Seq<u8> {
    spec_framed(name, value)
}

/// The wire form of the object that names `value` by its content hash.
pub open spec fn spec_ser_object_of(value: Seq<u8>) -> Seq<u8> {
    spec_object_bytes(object_name_of(value), value)
}

impl ImmutableObject {
    /// The name is the content hash of the value.
    pub open spec fn wf(&self) -> bool {
        &&& self.name@ == object_name_of(self.value@)
        &&& self.name@.len() == 32
    }

    pub open spec fn spec_serialised(&self) -> Seq<u8> {
        spec_object_bytes(self.name@, self.value@)
    }

    /// Names the given value from its content.
    pub fn new(value: Vec<u8>) -> (r: Self)
        ensures
            r.wf(),
            r.value@ == value@,
    {
        let name = sha256_digest(&value);
        ImmutableObject { name, value }
    }

    pub fn name(&self) -> (r: &Vec<u8>)
        ensures
            r@ == self.name@,
    {
        &self.name
    }

    pub fn value(&self) -> (r: &Vec<u8>)
        ensures
            r@ == self.value@,
    {
        &self.value
    }

    /// The wire form whose size the network bounds.
    pub fn serialise(&self) -> (r: Vec<u8>)
        ensures
            r@ == self.spec_serialised(),
    {
        encode_framed(&self.name, &self.value)
    }

    /// Reads an object back from its wire form; rejects every byte string
    /// that is not exactly the encoding of an object.
    pub fn deserialise(s: &Vec<u8>) -> (r: Result<Self, CoreError>)
        ensures
            match r {
                Ok(o) => o.name@.len() == 32 && s@ == o.spec_serialised(),
                Err(e) => {
                    &&& e == CoreError::SerializationFailure
                    &&& forall|h: Seq<u8>, b: Seq<u8>|
                        h.len() == 32 ==> s@ != spec_object_bytes(h, b)
                },
            },
    {
        match decode_framed(s, 32) {
            None => Err(CoreError::SerializationFailure),
            Some((name, value)) => Ok(ImmutableObject { name, value }),
        }
    }
}

} // verus!
