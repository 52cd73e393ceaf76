//! Adapter over the self-encryption engine.
//!
//! The engine turns a byte string into a small serialized recipe (the data
//! map) plus a set of encrypted chunks, and inverts that pair. Convergent
//! encryption makes both outputs functions of the input bytes alone. The
//! core stores chunks as plain values and hands the whole store back to the
//! engine on decryption; the engine finds the chunks it needs by content
//! hash, so a store holding more than one object's chunks is fine.

use vstd::prelude::*;

verus! {

/// One encrypted chunk emitted by the self-encryption engine.
pub struct Chunk {
    pub content: Vec<u8>,
}

impl View for Chunk {
    type V = Seq<u8>;

    open spec fn view(&self) -> Seq<u8> {
        self.content@
    }
}

/// The serialized data map that self-encrypting a byte string produces.
pub uninterp spec fn se_map_of(data: Seq<u8>) -> Seq<u8>;

/// The contents of the encrypted chunks that self-encrypting a byte string
/// produces.
pub uninterp spec fn se_chunks_of(data: Seq<u8>) -> Seq<Seq<u8>>;

/// The contents of a chunk store.
pub open spec fn chunk_views(cs: Seq<Chunk>) -> Seq<Seq<u8>> {
    cs.map_values(|c: Chunk| c@)
}

/// Every byte string of `need` occurs somewhere in `have`.
pub open spec fn contains_all(have: Seq<Seq<u8>>, need: Seq<Seq<u8>>) -> bool {
    forall|i: int| 0 <= i < need.len() ==> have.contains(#[trigger] need[i])
}

/// A store that grew at the end still holds everything it held before.
pub proof fn lemma_contains_all_grows(h1: Seq<Seq<u8>>, h2: Seq<Seq<u8>>, need: Seq<Seq<u8>>)
    requires
        h1.is_prefix_of(h2),
        contains_all(h1, need),
    ensures
        contains_all(h2, need),
{
    assert forall|i: int| 0 <= i < need.len() implies h2.contains(#[trigger] need[i]) by {
        let j = choose|j: int| 0 <= j < h1.len() && h1[j] == need[i];
        assert(h2[j] == need[i]);
    }
}

/// Relies on self_encryption::encrypt and DataMap::to_bytes: convergent
/// encryption is deterministic, so the serialized data map and the chunk
/// contents are functions of the input bytes alone. The engine refuses
/// exactly the inputs shorter than three bytes; for anything longer the
/// chunk count is at least three and no later step of the engine can fail,
/// so success is promised there.
#[verifier::external_body]
pub(crate) fn se_encrypt_call(data: &Vec<u8>) -> (r: Option<(Vec<u8>, Vec<Chunk>)>)
    ensures
        data@.len() >= 3 ==> r is Some,
        r matches Some(p) ==> p.0@ == se_map_of(data@) && chunk_views(p.1@) == se_chunks_of(
            data@,
        ),
{
    let bytes = bytes::Bytes::from(data.clone());
    let (map, cs) = self_encryption::encrypt(bytes).ok()?;
    let sm = map.to_bytes().ok()?;
    let chunks = cs.into_iter().map(|c| Chunk { content: c.content.to_vec() }).collect();
    Some((sm, chunks))
}

/// Relies on self_encryption::decrypt and DataMap::from_bytes: given the
/// serialized data map of some byte string and a store holding all of its
/// chunks, decryption recovers exactly that byte string; extra chunks in the
/// store do not disturb it, since the engine looks chunks up by content
/// hash.
#[verifier::external_body]
pub(crate) fn se_decrypt_call(sm: &Vec<u8>, chunks: &Vec<Chunk>) -> (r: Option<Vec<u8>>)
    ensures
        forall|d: Seq<u8>|
            sm@ == #[trigger] se_map_of(d) && contains_all(chunk_views(chunks@), se_chunks_of(d))
                ==> r is Some && r->0@ == d,
{
    let map = self_encryption::DataMap::from_bytes(sm.as_slice()).ok()?;
    let ec: Vec<self_encryption::EncryptedChunk> = chunks
        .iter()
        .map(|c| self_encryption::EncryptedChunk { content: bytes::Bytes::from(c.content.clone()) })
        .collect();
    let out = self_encryption::decrypt(&map, &ec).ok()?;
    Some(out.to_vec())
}

} // verus!
