//! The recursive pack/unpack engine and the client-facing glue.
//!
//! `pack` turns an envelope byte string into a single root object whose
//! serialized form fits `MAX_CHUNK_BYTES`, re-applying self-encryption to
//! the serialized object as often as needed (up to a bounded number of
//! levels); every chunk emitted on the way is appended to the caller's
//! store. `unpack` inverts that chain, driven purely by the envelope tags.
//! `create` and `extract_value` wrap the engine with the outer
//! self-encryption pass and the optional symmetric encryption of the
//! resulting data map.

use vstd::prelude::*;

use crate::codec::{
    decode_envelope, encode_envelope, lemma_framed_injective, spec_env_datamap,
    spec_env_serialised, Envelope,
};
use crate::crypto::{
    decrypts_to, spec_sym_encrypt, symmetric_decrypt, symmetric_encrypt, SymEncKey,
};
use crate::object::{
    lemma_object_name_len, object_name_of, spec_object_bytes, spec_ser_object_of, ImmutableObject,
};
use crate::se::{
    chunk_views, contains_all, lemma_contains_all_grows, se_chunks_of, se_decrypt_call,
    se_encrypt_call, se_map_of, Chunk,
};
use crate::{CoreError, MAX_CHUNK_BYTES};

verus! {

/// The number of data-map levels the engine is willing to pack or unpack.
pub const MAX_PACK_LEVELS: u32 = 8;

/// The envelope value the next pack level works on: a data-map envelope
/// over the recipe of the serialized object of the current value.
pub open spec fn spec_pack_next(value: Seq<u8>) -> Seq<u8> {
    spec_env_datamap(se_map_of(spec_ser_object_of(value)))
}

/// The value of the root object that packing `value` produces, or `None`
/// when the bounded number of levels is exhausted.
pub open spec fn spec_pack(value: Seq<u8>, fuel: nat) -> Option<Seq<u8>>
    decreases fuel,
{
    if spec_ser_object_of(value).len() <= MAX_CHUNK_BYTES {
        Some(value)
    } else if fuel == 0 {
        None
    } else {
        spec_pack(spec_pack_next(value), (fuel - 1) as nat)
    }
}

/// The chunk contents that packing `value` emits, level by level.
pub open spec fn spec_pack_chunks(value: Seq<u8>, fuel: nat) -> Seq<Seq<u8>>
    decreases fuel,
{
    if spec_ser_object_of(value).len() <= MAX_CHUNK_BYTES {
        Seq::empty()
    } else if fuel == 0 {
        Seq::empty()
    } else {
        se_chunks_of(spec_ser_object_of(value)) + spec_pack_chunks(
            spec_pack_next(value),
            (fuel - 1) as nat,
        )
    }
}

/// Walking the data-map chain down from the root value reaches the terminal
/// payload within `depth` levels, with every needed chunk in the store.
pub open spec fn unpacks_to(root: Seq<u8>, payload: Seq<u8>, chunks: Seq<Seq<u8>>, depth: nat) -> bool
    decreases depth,
{
    if root == spec_env_serialised(payload) {
        true
    } else if depth == 0 {
        false
    } else {
        exists|name: Seq<u8>, value: Seq<u8>|
            {
                &&& name.len() == 32
                &&& root == spec_env_datamap(se_map_of(#[trigger] spec_object_bytes(name, value)))
                &&& contains_all(chunks, se_chunks_of(spec_object_bytes(name, value)))
                &&& unpacks_to(value, payload, chunks, (depth - 1) as nat)
            }
    }
}

/// The two envelope variants never share an encoding: their tags differ.
pub proof fn lemma_env_tags_distinct(a: Seq<u8>, b: Seq<u8>)
    ensures
        spec_env_serialised(a) != spec_env_datamap(b),
{
    if spec_env_serialised(a) == spec_env_datamap(b) {
        lemma_framed_injective(seq![0u8], a, seq![1u8], b);
        assert(seq![0u8][0] == 0u8);
        assert(seq![1u8][0] == 1u8);
    }
}

/// A chain that resolves within some depth also resolves within any larger
/// depth.
pub proof fn lemma_unpacks_to_mono(
    root: Seq<u8>,
    payload: Seq<u8>,
    chunks: Seq<Seq<u8>>,
    d1: nat,
    d2: nat,
)
    requires
        unpacks_to(root, payload, chunks, d1),
        d1 <= d2,
    ensures
        unpacks_to(root, payload, chunks, d2),
    decreases d1,
{
    if root == spec_env_serialised(payload) {
    } else {
        let (name, value) = choose|name: Seq<u8>, value: Seq<u8>|
            {
                &&& name.len() == 32
                &&& root == spec_env_datamap(se_map_of(#[trigger] spec_object_bytes(name, value)))
                &&& contains_all(chunks, se_chunks_of(spec_object_bytes(name, value)))
                &&& unpacks_to(value, payload, chunks, (d1 - 1) as nat)
            };
        lemma_unpacks_to_mono(value, payload, chunks, (d1 - 1) as nat, (d2 - 1) as nat);
    }
}

/// One resolution step at a data-map root: the store holds the chunks of a
/// serialized object whose recipe the envelope carries, and the chain goes
/// on from that object's value.
proof fn lemma_unpacks_to_step(
    root: Seq<u8>,
    payload: Seq<u8>,
    chunks: Seq<Seq<u8>>,
    depth: nat,
    sm: Seq<u8>,
) -> (w: (Seq<u8>, Seq<u8>))
    requires
        unpacks_to(root, payload, chunks, depth),
        root == spec_env_datamap(sm),
    ensures
        depth > 0,
        w.0.len() == 32,
        sm == se_map_of(spec_object_bytes(w.0, w.1)),
        contains_all(chunks, se_chunks_of(spec_object_bytes(w.0, w.1))),
        unpacks_to(w.1, payload, chunks, (depth - 1) as nat),
{
    lemma_env_tags_distinct(payload, sm);
    let (name, value) = choose|name: Seq<u8>, value: Seq<u8>|
        {
            &&& name.len() == 32
            &&& root == spec_env_datamap(se_map_of(#[trigger] spec_object_bytes(name, value)))
            &&& contains_all(chunks, se_chunks_of(spec_object_bytes(name, value)))
            &&& unpacks_to(value, payload, chunks, (depth - 1) as nat)
        };
    lemma_framed_injective(seq![1u8], se_map_of(spec_object_bytes(name, value)), seq![1u8], sm);
    (name, value)
}

/// What `pack` produces, `unpack` resolves: packing a value whose chain
/// already reaches the payload yields a root whose chain still reaches it,
/// provided the store kept every chunk that packing emitted.
proof fn lemma_pack_unpacks_to(
    value: Seq<u8>,
    payload: Seq<u8>,
    chunks: Seq<Seq<u8>>,
    fuel: nat,
    d0: nat,
    root: Seq<u8>,
)
    requires
        spec_pack(value, fuel) == Some(root),
        contains_all(chunks, spec_pack_chunks(value, fuel)),
        unpacks_to(value, payload, chunks, d0),
    ensures
        unpacks_to(root, payload, chunks, d0 + fuel),
    decreases fuel,
{
    if spec_ser_object_of(value).len() <= MAX_CHUNK_BYTES {
        lemma_unpacks_to_mono(value, payload, chunks, d0, d0 + fuel);
    } else {
        let next = spec_pack_next(value);
        let emitted = se_chunks_of(spec_ser_object_of(value));
        let rest = spec_pack_chunks(next, (fuel - 1) as nat);
        assert(spec_pack_chunks(value, fuel) == emitted + rest);
        assert(contains_all(chunks, emitted)) by {
            assert forall|i: int| 0 <= i < emitted.len() implies chunks.contains(
                #[trigger] emitted[i],
            ) by {
                assert((emitted + rest)[i] == emitted[i]);
            }
        }
        assert(contains_all(chunks, rest)) by {
            assert forall|i: int| 0 <= i < rest.len() implies chunks.contains(
                #[trigger] rest[i],
            ) by {
                assert((emitted + rest)[emitted.len() + i] == rest[i]);
            }
        }
        lemma_object_name_len(value);
        let name = object_name_of(value);
        assert(spec_ser_object_of(value) == spec_object_bytes(name, value));
        assert(unpacks_to(next, payload, chunks, d0 + 1)) by {
            assert(next == spec_env_datamap(se_map_of(spec_object_bytes(name, value))));
            if next != spec_env_serialised(payload) {
                assert(unpacks_to(value, payload, chunks, (d0 + 1 - 1) as nat));
            }
        }
        lemma_pack_unpacks_to(next, payload, chunks, (fuel - 1) as nat, d0 + 1, root);
    }
}

/// Builds the root object for an envelope value, feeding every intermediate
/// chunk into the caller's store. The serialized root always fits
/// `MAX_CHUNK_BYTES`; when the bounded number of levels cannot shrink the
/// value far enough, packing fails with `PayloadTooLarge`.
pub fn pack(value: Vec<u8>, chunks: &mut Vec<Chunk>, fuel: u32) -> (r: Result<
    ImmutableObject,
    CoreError,
>)
    ensures
        old(chunks)@.is_prefix_of(final(chunks)@),
        spec_ser_object_of(value@).len() <= MAX_CHUNK_BYTES ==> r is Ok && final(chunks)@ == old(
            chunks,
        )@,
        match r {
            Ok(obj) => {
                &&& obj.wf()
                &&& obj.spec_serialised().len() <= MAX_CHUNK_BYTES
                &&& Some(obj.value@) == spec_pack(value@, fuel as nat)
                &&& contains_all(
                    chunk_views(final(chunks)@),
                    spec_pack_chunks(value@, fuel as nat),
                )
            },
            Err(e) => e == CoreError::PayloadTooLarge && spec_pack(value@, fuel as nat) is None,
        },
    decreases fuel,
{
    let ghost v0 = value@;
    let obj = ImmutableObject::new(value);
    let ser = obj.serialise();
    proof {
        assert(obj.spec_serialised() == spec_ser_object_of(v0));
    }
    if ser.len() <= MAX_CHUNK_BYTES {
        return Ok(obj);
    }
    if fuel == 0 {
        return Err(CoreError::PayloadTooLarge);
    }
    match se_encrypt_call(&ser) {
        None => {
            // An oversize serialized object is far longer than the engine's
            // three-byte minimum, so encryption cannot have been refused.
            proof {
                assert(ser@.len() >= 3);
                assert(false);
            }
            Err(CoreError::PayloadTooLarge)
        },
        Some((sm, mut fresh)) => {
            let ghost pre = chunks@;
            chunks.append(&mut fresh);
            let env = Envelope::DataMap(sm);
            let next = encode_envelope(&env);
            proof {
                assert(next@ == spec_pack_next(v0));
            }
            let ghost mid = chunks@;
            let r = pack(next, chunks, fuel - 1);
            proof {
                assert(pre.is_prefix_of(mid));
                assert(pre.is_prefix_of(chunks@));
                if r is Ok {
                    let emitted = se_chunks_of(spec_ser_object_of(v0));
                    let rest = spec_pack_chunks(spec_pack_next(v0), (fuel - 1) as nat);
                    assert(spec_pack_chunks(v0, fuel as nat) == emitted + rest);
                    assert(contains_all(chunk_views(mid), emitted)) by {
                        assert forall|i: int| 0 <= i < emitted.len() implies chunk_views(
                            mid,
                        ).contains(#[trigger] emitted[i]) by {
                            assert(chunk_views(mid)[pre.len() + i] == emitted[i]);
                        }
                    }
                    assert(chunk_views(mid).is_prefix_of(chunk_views(chunks@))) by {
                        assert(mid.is_prefix_of(chunks@));
                        assert forall|j: int| 0 <= j < mid.len() implies chunk_views(mid)[j]
                            == chunk_views(chunks@)[j] by {
                            assert(mid[j] == chunks@[j]);
                        }
                    }
                    lemma_contains_all_grows(chunk_views(mid), chunk_views(chunks@), emitted);
                    assert(contains_all(chunk_views(chunks@), spec_pack_chunks(v0, fuel as nat)))
                        by {
                        assert forall|i: int|
                            0 <= i < spec_pack_chunks(v0, fuel as nat).len() implies chunk_views(
                            chunks@,
                        ).contains(#[trigger] spec_pack_chunks(v0, fuel as nat)[i]) by {
                            if i < emitted.len() {
                                assert((emitted + rest)[i] == emitted[i]);
                            } else {
                                assert((emitted + rest)[i] == rest[i - emitted.len()]);
                            }
                        }
                    }
                }
            }
            r
        },
    }
}

/// Resolves a root object back to the envelope payload it was packed from,
/// reading intermediate levels out of the chunk store. The envelope tag
/// alone drives the recursion, which is bounded by `depth`.
pub fn unpack(data: &ImmutableObject, chunks: &Vec<Chunk>, depth: u32) -> (r: Result<
    Vec<u8>,
    CoreError,
>)
    ensures
        forall|p: Seq<u8>|
            #[trigger] unpacks_to(data.value@, p, chunk_views(chunks@), depth as nat) ==> r is Ok
                && r->Ok_0@ == p,
        r is Err ==> (r->Err_0 == CoreError::SerializationFailure || r->Err_0
            == CoreError::SelfEncryptionFailure),
        (forall|b: Seq<u8>|
            data.value@ != spec_env_serialised(b) && data.value@ != spec_env_datamap(b)) ==> r
            == Err::<Vec<u8>, CoreError>(CoreError::SerializationFailure),
    decreases depth,
{
    let ghost root = data.value@;
    let ghost cs = chunk_views(chunks@);
    match decode_envelope(&data.value) {
        Err(_) => {
            proof {
                assert forall|p: Seq<u8>| !unpacks_to(root, p, cs, depth as nat) by {
                    if unpacks_to(root, p, cs, depth as nat) {
                        if root == spec_env_serialised(p) {
                        } else {
                            let (name, value) = choose|name: Seq<u8>, value: Seq<u8>|
                                {
                                    &&& name.len() == 32
                                    &&& root == spec_env_datamap(
                                        se_map_of(#[trigger] spec_object_bytes(name, value)),
                                    )
                                    &&& contains_all(
                                        cs,
                                        se_chunks_of(spec_object_bytes(name, value)),
                                    )
                                    &&& unpacks_to(value, p, cs, (depth - 1) as nat)
                                };
                        }
                    }
                }
            }
            Err(CoreError::SerializationFailure)
        },
        Ok(Envelope::Serialised(b)) => {
            proof {
                assert forall|p: Seq<u8>|
                    unpacks_to(root, p, cs, depth as nat) implies b@ == p by {
                    if root == spec_env_serialised(p) {
                        lemma_framed_injective(seq![0u8], p, seq![0u8], b@);
                    } else {
                        let (name, value) = choose|name: Seq<u8>, value: Seq<u8>|
                            {
                                &&& name.len() == 32
                                &&& root == spec_env_datamap(
                                    se_map_of(#[trigger] spec_object_bytes(name, value)),
                                )
                                &&& contains_all(cs, se_chunks_of(spec_object_bytes(name, value)))
                                &&& unpacks_to(value, p, cs, (depth - 1) as nat)
                            };
                        lemma_env_tags_distinct(b@, se_map_of(spec_object_bytes(name, value)));
                    }
                }
            }
            Ok(b)
        },
        Ok(Envelope::DataMap(sm)) => {
            if depth == 0 {
                proof {
                    assert forall|p: Seq<u8>| !unpacks_to(root, p, cs, depth as nat) by {
                        if unpacks_to(root, p, cs, depth as nat) {
                            let w = lemma_unpacks_to_step(root, p, cs, depth as nat, sm@);
                        }
                    }
                }
                return Err(CoreError::SerializationFailure);
            }
            match se_decrypt_call(&sm, chunks) {
                None => {
                    proof {
                        assert forall|p: Seq<u8>| !unpacks_to(root, p, cs, depth as nat) by {
                            if unpacks_to(root, p, cs, depth as nat) {
                                let w = lemma_unpacks_to_step(root, p, cs, depth as nat, sm@);
                            }
                        }
                    }
                    Err(CoreError::SelfEncryptionFailure)
                },
                Some(serial) => {
                    match ImmutableObject::deserialise(&serial) {
                        Err(_) => {
                            proof {
                                assert forall|p: Seq<u8>|
                                    !unpacks_to(root, p, cs, depth as nat) by {
                                    if unpacks_to(root, p, cs, depth as nat) {
                                        let w = lemma_unpacks_to_step(
                                            root,
                                            p,
                                            cs,
                                            depth as nat,
                                            sm@,
                                        );
                                        assert(serial@ == spec_object_bytes(w.0, w.1));
                                    }
                                }
                            }
                            Err(CoreError::SerializationFailure)
                        },
                        Ok(obj) => {
                            let r = unpack(&obj, chunks, depth - 1);
                            proof {
                                assert forall|p: Seq<u8>|
                                    #[trigger] unpacks_to(root, p, cs, depth as nat) implies r
                                    is Ok && r->Ok_0@ == p by {
                                    let w = lemma_unpacks_to_step(root, p, cs, depth as nat, sm@);
                                    assert(serial@ == spec_object_bytes(w.0, w.1));
                                    lemma_framed_injective(w.0, w.1, obj.name@, obj.value@);
                                    assert(obj.value@ == w.1);
                                    assert(unpacks_to(obj.value@, p, cs, (depth - 1) as nat));
                                }
                            }
                            r
                        },
                    }
                },
            }
        },
    }
}

/// The caller's key option, seen as byte strings.
pub open spec fn key_view(k: Option<&SymEncKey>) -> Option<Seq<u8>> {
    match k {
        Some(kk) => Some(kk@),
        None => None,
    }
}

/// The terminal payload that `create` wraps for a value: the serialized
/// data map of the value, symmetrically encrypted when a key is given.
pub open spec fn spec_payload(v: Seq<u8>, key: Option<Seq<u8>>, n: Seq<u8>) -> Seq<u8> {
    match key {
        None => se_map_of(v),
        Some(k) => spec_sym_encrypt(se_map_of(v), k, n),
    }
}

/// The envelope value that `create` hands to `pack`.
pub open spec fn spec_create_envelope(v: Seq<u8>, key: Option<Seq<u8>>, n: Seq<u8>) -> Seq<u8> {
    spec_env_serialised(spec_payload(v, key, n))
}

/// The root value and chunk store are a complete package of `v` under
/// `key`: the data-map chain resolves to the terminal payload, and the
/// store holds every chunk of the outer self-encryption pass.
pub open spec fn spec_packaged(
    root: Seq<u8>,
    chunks: Seq<Seq<u8>>,
    key: Option<Seq<u8>>,
    v: Seq<u8>,
) -> bool {
    exists|n: Seq<u8>|
        {
            &&& n.len() == 16
            &&& unpacks_to(
                root,
                #[trigger] spec_payload(v, key, n),
                chunks,
                MAX_PACK_LEVELS as nat,
            )
            &&& contains_all(chunks, se_chunks_of(v))
        }
}

/// Pack/unpack round trip: whatever `create` built satisfies the condition
/// under which `extract_value` with the same key is owed the original
/// payload back. This covers the unencrypted and the encrypted mode alike.
pub proof fn lemma_create_round_trip(
    v: Seq<u8>,
    key: Option<Seq<u8>>,
    n: Seq<u8>,
    chunks: Seq<Seq<u8>>,
    root: Seq<u8>,
)
    requires
        n.len() == 16,
        spec_pack(spec_create_envelope(v, key, n), MAX_PACK_LEVELS as nat) == Some(root),
        contains_all(
            chunks,
            spec_pack_chunks(spec_create_envelope(v, key, n), MAX_PACK_LEVELS as nat),
        ),
        contains_all(chunks, se_chunks_of(v)),
    ensures
        spec_packaged(root, chunks, key, v),
{
    let env = spec_create_envelope(v, key, n);
    let payload = spec_payload(v, key, n);
    assert(unpacks_to(env, payload, chunks, 0));
    lemma_pack_unpacks_to(env, payload, chunks, MAX_PACK_LEVELS as nat, 0, root);
}

/// Determinism of naming: without a key the envelope does not depend on the
/// drawn nonce, so packing the same payload always works on the same value
/// and yields the same root — and object names are functions of root
/// values.
pub proof fn lemma_create_deterministic(v: Seq<u8>, n1: Seq<u8>, n2: Seq<u8>)
    ensures
        spec_create_envelope(v, None, n1) == spec_create_envelope(v, None, n2),
        spec_pack(spec_create_envelope(v, None, n1), MAX_PACK_LEVELS as nat) == spec_pack(
            spec_create_envelope(v, None, n2),
            MAX_PACK_LEVELS as nat,
        ),
{
}

/// Create an immutable object out of the given raw bytes, together with the
/// chunk store the caller must persist beside it. The value is
/// self-encrypted once; the resulting data map is symmetrically encrypted
/// when a key is provided; the envelope is then packed so that the
/// serialized root object respects the maximum chunk size.
pub fn create(value: &Vec<u8>, encryption_key: Option<&SymEncKey>) -> (r: Result<
    (ImmutableObject, Vec<Chunk>),
    CoreError,
>)
    ensures
        match r {
            Ok(p) => {
                &&& p.0.wf()
                &&& p.0.spec_serialised().len() <= MAX_CHUNK_BYTES
                &&& spec_packaged(
                    p.0.value@,
                    chunk_views(p.1@),
                    key_view(encryption_key),
                    value@,
                )
                &&& (encryption_key is None ==> Some(p.0.value@) == spec_pack(
                    spec_create_envelope(value@, None, Seq::empty()),
                    MAX_PACK_LEVELS as nat,
                ))
            },
            Err(e) => {
                &&& (e == CoreError::SelfEncryptionFailure || e == CoreError::PayloadTooLarge)
                &&& (e == CoreError::SelfEncryptionFailure ==> value@.len() < 3)
                &&& (e == CoreError::PayloadTooLarge ==> exists|n: Seq<u8>|
                    n.len() == 16 && spec_pack(
                        #[trigger] spec_create_envelope(value@, key_view(encryption_key), n),
                        MAX_PACK_LEVELS as nat,
                    ) is None)
            },
        },
        (value@.len() >= 3 && (forall|n: Seq<u8>|
            n.len() == 16 ==> spec_pack(
                #[trigger] spec_create_envelope(value@, key_view(encryption_key), n),
                MAX_PACK_LEVELS as nat,
            ) is Some)) ==> r is Ok,
{
    let ghost v0 = value@;
    let ghost kv = key_view(encryption_key);
    match se_encrypt_call(value) {
        None => Err(CoreError::SelfEncryptionFailure),
        Some((sm, mut chunks)) => {
            let ghost sm0 = sm@;
            let ghost base = chunks@;
            let ghost nonce: Seq<u8>;
            let payload: Vec<u8> = match encryption_key {
                Some(key) => {
                    let c = symmetric_encrypt(&sm, key, None).unwrap();
                    proof {
                        nonce = choose|n: Seq<u8>|
                            n.len() == 16 && c@ == #[trigger] spec_sym_encrypt(sm0, key@, n);
                    }
                    c
                },
                None => {
                    proof {
                        nonce = Seq::new(16, |i: int| 0u8);
                    }
                    sm
                },
            };
            proof {
                assert(payload@ == spec_payload(v0, kv, nonce));
            }
            let env = Envelope::Serialised(payload);
            let env_bytes = encode_envelope(&env);
            proof {
                assert(env_bytes@ == spec_create_envelope(v0, kv, nonce));
            }
            match pack(env_bytes, &mut chunks, MAX_PACK_LEVELS) {
                Ok(obj) => {
                    proof {
                        assert(base.is_prefix_of(chunks@));
                        assert(contains_all(chunk_views(base), se_chunks_of(v0))) by {
                            assert forall|i: int|
                                0 <= i < se_chunks_of(v0).len() implies chunk_views(
                                base,
                            ).contains(#[trigger] se_chunks_of(v0)[i]) by {
                                assert(chunk_views(base)[i] == se_chunks_of(v0)[i]);
                            }
                        }
                        assert(chunk_views(base).is_prefix_of(chunk_views(chunks@))) by {
                            assert forall|j: int| 0 <= j < base.len() implies chunk_views(
                                base,
                            )[j] == chunk_views(chunks@)[j] by {
                                assert(base[j] == chunks@[j]);
                            }
                        }
                        lemma_contains_all_grows(
                            chunk_views(base),
                            chunk_views(chunks@),
                            se_chunks_of(v0),
                        );
                        lemma_create_round_trip(
                            v0,
                            kv,
                            nonce,
                            chunk_views(chunks@),
                            obj.value@,
                        );
                        if encryption_key is None {
                            assert(spec_create_envelope(v0, None, nonce)
                                == spec_create_envelope(v0, None, Seq::empty()));
                        }
                    }
                    Ok((obj, chunks))
                },
                Err(e) => {
                    proof {
                        assert(spec_pack(
                            spec_create_envelope(v0, kv, nonce),
                            MAX_PACK_LEVELS as nat,
                        ) is None);
                        assert(nonce.len() == 16);
                    }
                    Err(e)
                },
            }
        },
    }
}

/// Get the raw bytes back out of an object created by `create`, given the
/// chunk store persisted beside it and the same key option that was used
/// on creation.
pub fn extract_value(
    data: &ImmutableObject,
    chunks: &Vec<Chunk>,
    decryption_key: Option<&SymEncKey>,
) -> (r: Result<Vec<u8>, CoreError>)
    ensures
        forall|v: Seq<u8>|
            #[trigger] spec_packaged(
                data.value@,
                chunk_views(chunks@),
                key_view(decryption_key),
                v,
            ) ==> r is Ok && r->Ok_0@ == v,
        r is Err ==> (r->Err_0 == CoreError::SerializationFailure || r->Err_0
            == CoreError::SymmetricDecipherFailure || r->Err_0
            == CoreError::SelfEncryptionFailure),
        (forall|b: Seq<u8>|
            data.value@ != spec_env_serialised(b) && data.value@ != spec_env_datamap(b)) ==> r
            == Err::<Vec<u8>, CoreError>(CoreError::SerializationFailure),
{
    let ghost root = data.value@;
    let ghost cs = chunk_views(chunks@);
    let ghost kv = key_view(decryption_key);
    let payload: Vec<u8> = match unpack(data, chunks, MAX_PACK_LEVELS) {
        Ok(p) => p,
        Err(e) => {
            proof {
                assert forall|v: Seq<u8>| !spec_packaged(root, cs, kv, v) by {
                    if spec_packaged(root, cs, kv, v) {
                        let n = choose|n: Seq<u8>|
                            {
                                &&& n.len() == 16
                                &&& unpacks_to(
                                    root,
                                    #[trigger] spec_payload(v, kv, n),
                                    cs,
                                    MAX_PACK_LEVELS as nat,
                                )
                                &&& contains_all(cs, se_chunks_of(v))
                            };
                    }
                }
            }
            return Err(e);
        },
    };
    let ghost pl = payload@;
    let sm: Vec<u8> = match decryption_key {
        None => payload,
        Some(key) => {
            match symmetric_decrypt(&payload, key) {
                Ok(s) => s,
                Err(e) => {
                    proof {
                        assert forall|v: Seq<u8>| !spec_packaged(root, cs, kv, v) by {
                            if spec_packaged(root, cs, kv, v) {
                                let n = choose|n: Seq<u8>|
                                    {
                                        &&& n.len() == 16
                                        &&& unpacks_to(
                                            root,
                                            #[trigger] spec_payload(v, kv, n),
                                            cs,
                                            MAX_PACK_LEVELS as nat,
                                        )
                                        &&& contains_all(cs, se_chunks_of(v))
                                    };
                                assert(pl == spec_sym_encrypt(se_map_of(v), key@, n));
                                assert(decrypts_to(pl, key@, se_map_of(v)));
                            }
                        }
                    }
                    return Err(e);
                },
            }
        },
    };
    proof {
        assert forall|v: Seq<u8>|
            #[trigger] spec_packaged(root, cs, kv, v) implies sm@ == se_map_of(v) by {
            let n = choose|n: Seq<u8>|
                {
                    &&& n.len() == 16
                    &&& unpacks_to(root, #[trigger] spec_payload(v, kv, n), cs, MAX_PACK_LEVELS as nat)
                    &&& contains_all(cs, se_chunks_of(v))
                };
            if decryption_key is Some {
                assert(pl == spec_sym_encrypt(se_map_of(v), kv->0, n));
                assert(decrypts_to(pl, kv->0, se_map_of(v)));
            }
        }
    }
    match se_decrypt_call(&sm, chunks) {
        None => {
            proof {
                assert forall|v: Seq<u8>| !spec_packaged(root, cs, kv, v) by {
                    if spec_packaged(root, cs, kv, v) {
                        let n = choose|n: Seq<u8>|
                            {
                                &&& n.len() == 16
                                &&& unpacks_to(
                                    root,
                                    #[trigger] spec_payload(v, kv, n),
                                    cs,
                                    MAX_PACK_LEVELS as nat,
                                )
                                &&& contains_all(cs, se_chunks_of(v))
                            };
                        assert(sm@ == se_map_of(v));
                    }
                }
            }
            Err(CoreError::SelfEncryptionFailure)
        },
        Some(out) => {
            proof {
                assert forall|v: Seq<u8>|
                    #[trigger] spec_packaged(root, cs, kv, v) implies out@ == v by {
                    let n = choose|n: Seq<u8>|
                        {
                            &&& n.len() == 16
                            &&& unpacks_to(
                                root,
                                #[trigger] spec_payload(v, kv, n),
                                cs,
                                MAX_PACK_LEVELS as nat,
                            )
                            &&& contains_all(cs, se_chunks_of(v))
                        };
                    assert(sm@ == se_map_of(v));
                }
            }
            Ok(out)
        },
    }
}

} // verus!

