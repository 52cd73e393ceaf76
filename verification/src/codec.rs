//! The canonical binary format of the core.
//!
//! Every byte string that becomes the content of a network object is encoded
//! here: the envelope (a tagged union of a terminal payload and a data-map
//! level), the symmetric-encryption container, and the object wire form.
//! The format is deterministic by construction: a value has exactly one
//! encoding, and decoding rejects everything else.

use vstd::prelude::*;

use crate::CoreError;

verus! {

/// Little-endian digits of `n`, `k` bytes long.
pub open spec fn le_bytes(n: int, k: nat) -> Seq<u8>
    decreases k,
{
    if k == 0 {
        Seq::empty()
    } else {
        seq![(n % 256) as u8] + le_bytes(n / 256, (k - 1) as nat)
    }
}

/// The number a little-endian byte string denotes.
pub open spec fn le_value(s: Seq<u8>) -> int
    decreases s.len(),
{
    if s.len() == 0 {
        0
    } else {
        s[0] + 256 * le_value(s.subrange(1, s.len() as int))
    }
}

/// 256 to the power `k`.
pub open spec fn pow256(k: nat) -> int
    decreases k,
{
    if k == 0 {
        1
    } else {
        256 * pow256((k - 1) as nat)
    }
}

pub proof fn lemma_le_bytes_len(n: int, k: nat)
    ensures
        le_bytes(n, k).len() == k,
    decreases k,
{
    if k > 0 {
        lemma_le_bytes_len(n / 256, (k - 1) as nat);
    }
}

/// Decoding the little-endian digits of `n` gives `n` back.
pub proof fn lemma_le_round_trip(n: int, k: nat)
    requires
        0 <= n < pow256(k),
    ensures
        le_value(le_bytes(n, k)) == n,
    decreases k,
{
    if k == 0 {
    } else {
        let q = n / 256;
        let r = n % 256;
        vstd::arithmetic::div_mod::lemma_fundamental_div_mod(n, 256);
        assert(q < pow256((k - 1) as nat)) by {
            if q >= pow256((k - 1) as nat) {
                assert(256 * q >= 256 * pow256((k - 1) as nat)) by (nonlinear_arith)
                    requires
                        q >= pow256((k - 1) as nat),
                ;
            }
        }
        assert(0 <= q) by {
            vstd::arithmetic::div_mod::lemma_div_pos_is_pos(n, 256);
        }
        lemma_le_round_trip(q, (k - 1) as nat);
        lemma_le_bytes_len(q, (k - 1) as nat);
        let s = le_bytes(n, k);
        assert(s[0] == r as u8);
        assert(s.subrange(1, s.len() as int) =~= le_bytes(q, (k - 1) as nat));
    }
}

pub proof fn lemma_pow256_monotone(j: nat, k: nat)
    requires
        j <= k,
    ensures
        pow256(j) <= pow256(k),
    decreases k,
{
    if j < k {
        lemma_pow256_monotone(j, (k - 1) as nat);
        assert(pow256((k - 1) as nat) >= 1) by {
            lemma_pow256_pos((k - 1) as nat);
        }
    }
}

pub proof fn lemma_pow256_pos(k: nat)
    ensures
        pow256(k) >= 1,
    decreases k,
{
    if k > 0 {
        lemma_pow256_pos((k - 1) as nat);
    }
}

/// The concrete values of the small powers of 256.
pub proof fn lemma_pow256_values()
    ensures
        pow256(7) == 0x100_0000_0000_0000,
        pow256(8) == 0x1_0000_0000_0000_0000,
{
    assert(pow256(0) == 1);
    assert(pow256(1) == 0x100);
    assert(pow256(2) == 0x1_0000);
    assert(pow256(3) == 0x100_0000);
    assert(pow256(4) == 0x1_0000_0000);
    assert(pow256(5) == 0x100_0000_0000);
    assert(pow256(6) == 0x1_0000_0000_0000);
    assert(pow256(7) == 0x100_0000_0000_0000);
    assert(pow256(8) == 0x1_0000_0000_0000_0000);
}

/// Every `u64` fits in eight little-endian bytes.
pub proof fn lemma_u64_fits(n: u64)
    ensures
        0 <= n < pow256(8),
{
    lemma_pow256_values();
}

/// Eight little-endian bytes holding `n`.
pub fn encode_le64(n: u64) -> (r: Vec<u8>)
    ensures
        r@ == le_bytes(n as int, 8),
        r@.len() == 8,
{
    let mut v: Vec<u8> = Vec::new();
    let mut x: u64 = n;
    let mut i: usize = 0;
    proof {
        lemma_u64_fits(n);
        assert(v@ + le_bytes(n as int, 8) =~= le_bytes(n as int, 8));
    }
    while i < 8
        invariant
            i <= 8,
            0 <= x < pow256((8 - i) as nat),
            v@.len() == i,
            v@ + le_bytes(x as int, (8 - i) as nat) == le_bytes(n as int, 8),
        decreases 8 - i,
    {
        let ghost old_v = v@;
        let ghost old_x = x as int;
        let b: u8 = (x % 256) as u8;
        v.push(b);
        x = x / 256;
        i = i + 1;
        proof {
            vstd::arithmetic::div_mod::lemma_fundamental_div_mod(old_x, 256);
            assert((x as int) < pow256((8 - i) as nat)) by {
                if (x as int) >= pow256((8 - i) as nat) {
                    assert(256 * (x as int) >= 256 * pow256((8 - i) as nat)) by (nonlinear_arith)
                        requires
                            (x as int) >= pow256((8 - i) as nat),
                    ;
                }
            }
            assert(le_bytes(old_x, (8 - (i - 1)) as nat) =~= seq![b] + le_bytes(
                x as int,
                (8 - i) as nat,
            ));
            assert(v@ + le_bytes(x as int, (8 - i) as nat) =~= old_v + le_bytes(
                old_x,
                (8 - (i - 1)) as nat,
            ));
        }
    }
    proof {
        lemma_le_bytes_len(n as int, 8);
        assert(v@ =~= le_bytes(n as int, 8));
    }
    v
}

/// A byte string decodes back to its own little-endian digits.
pub proof fn lemma_le_bytes_of_value(s: Seq<u8>)
    ensures
        0 <= le_value(s) < pow256(s.len()),
        le_bytes(le_value(s), s.len()) == s,
    decreases s.len(),
{
    if s.len() == 0 {
        assert(le_bytes(0, 0) =~= s);
    } else {
        let tail = s.subrange(1, s.len() as int);
        lemma_le_bytes_of_value(tail);
        let v = le_value(tail);
        let n = le_value(s);
        assert(n == s[0] + 256 * v);
        assert(256 * v < 256 * pow256(tail.len())) by (nonlinear_arith)
            requires
                v < pow256(tail.len()),
        ;
        assert(0 <= 256 * v) by (nonlinear_arith)
            requires
                0 <= v,
        ;
        vstd::arithmetic::div_mod::lemma_fundamental_div_mod_converse(n, 256, v, s[0] as int);
        assert(le_bytes(n, s.len()) =~= seq![(n % 256) as u8] + le_bytes(n / 256, tail.len()));
        assert(le_bytes(n, s.len()) =~= s);
    }
}

/// The wire form shared by every encoding of the core: a fixed-width head,
/// the body's length as eight little-endian bytes, then the body.
pub open spec fn spec_framed(head: Seq<u8>, body: Seq<u8>) -> Seq<u8> {
    head + le_bytes(body.len() as int, 8) + body
}

pub proof fn lemma_framed_len(head: Seq<u8>, body: Seq<u8>)
    ensures
        spec_framed(head, body).len() == head.len() + 8 + body.len(),
{
    lemma_le_bytes_len(body.len() as int, 8);
}

/// Two framed encodings with equally long heads agree only on equal parts.
pub proof fn lemma_framed_injective(h1: Seq<u8>, b1: Seq<u8>, h2: Seq<u8>, b2: Seq<u8>)
    requires
        h1.len() == h2.len(),
        spec_framed(h1, b1) == spec_framed(h2, b2),
    ensures
        h1 == h2,
        b1 == b2,
{
    lemma_framed_len(h1, b1);
    lemma_framed_len(h2, b2);
    lemma_le_bytes_len(b1.len() as int, 8);
    lemma_le_bytes_len(b2.len() as int, 8);
    let s = spec_framed(h1, b1);
    let hl = h1.len() as int;
    assert(h1 =~= s.subrange(0, hl));
    assert(h2 =~= s.subrange(0, hl));
    assert(b1 =~= s.subrange(hl + 8, s.len() as int));
    assert(b2 =~= s.subrange(hl + 8, s.len() as int));
}

/// Builds the framed wire form of `head` and `body`.
pub fn encode_framed(head: &Vec<u8>, body: &Vec<u8>) -> (r: Vec<u8>)
    ensures
        r@ == spec_framed(head@, body@),
{
    let mut r: Vec<u8> = Vec::new();
    r.extend_from_slice(head.as_slice());
    let mut lenv = encode_le64(body.len() as u64);
    r.append(&mut lenv);
    r.extend_from_slice(body.as_slice());
    proof {
        assert(r@ =~= spec_framed(head@, body@));
    }
    r
}

/// Splits a framed wire form back into its head and body; rejects every byte
/// string that is not exactly the encoding of such a pair.
pub fn decode_framed(s: &Vec<u8>, head_len: usize) -> (r: Option<(Vec<u8>, Vec<u8>)>)
    requires
        head_len <= 32,
    ensures
        match r {
            Some(p) => p.0@.len() == head_len && s@ == spec_framed(p.0@, p.1@),
            None => forall|h: Seq<u8>, b: Seq<u8>|
                h.len() == head_len ==> s@ != spec_framed(h, b),
        },
{
    let n = s.len();
    if n < head_len + 8 {
        proof {
            assert forall|h: Seq<u8>, b: Seq<u8>| h.len() == head_len implies s@ != spec_framed(
                h,
                b,
            ) by {
                lemma_framed_len(h, b);
            }
        }
        return None;
    }
    let len64 = decode_le64(s.as_slice(), head_len);
    let ghost lenfield = s@.subrange(head_len as int, head_len + 8);
    if len64 != ((n - head_len) - 8) as u64 {
        proof {
            assert forall|h: Seq<u8>, b: Seq<u8>| h.len() == head_len implies s@ != spec_framed(
                h,
                b,
            ) by {
                if s@ == spec_framed(h, b) {
                    lemma_framed_len(h, b);
                    lemma_le_bytes_len(b.len() as int, 8);
                    assert(lenfield =~= le_bytes(b.len() as int, 8));
                    lemma_pow256_values();
                    lemma_le_round_trip(b.len() as int, 8);
                }
            }
        }
        return None;
    }
    let head = vstd::slice::slice_to_vec(vstd::slice::slice_subrange(s.as_slice(), 0, head_len));
    let body = vstd::slice::slice_to_vec(
        vstd::slice::slice_subrange(s.as_slice(), head_len + 8, n),
    );
    proof {
        lemma_le_bytes_of_value(lenfield);
        assert(le_bytes(body@.len() as int, 8) == lenfield);
        assert(s@ =~= spec_framed(head@, body@));
    }
    Some((head, body))
}

/// The tagged union written into every network object: either the terminal
/// payload of the pack recursion, or one more data-map level.
pub enum Envelope {
    Serialised(Vec<u8>),
    DataMap(Vec<u8>),
}

/// Encoding of the terminal variant: tag byte 0.
pub open spec fn spec_env_serialised(b: Seq<u8>) -> Seq<u8> {
    spec_framed(seq![0u8], b)
}

/// Encoding of the data-map variant: tag byte 1.
pub open spec fn spec_env_datamap(m: Seq<u8>) -> Seq<u8> {
    spec_framed(seq![1u8], m)
}

impl Envelope {
    pub open spec fn spec_encoding(&self) -> Seq<u8> {
        match self {
            Envelope::Serialised(b) => spec_env_serialised(b@),
            Envelope::DataMap(m) => spec_env_datamap(m@),
        }
    }
}

/// Builds the wire form of an envelope.
pub fn encode_envelope(env: &Envelope) -> (r: Vec<u8>)
    ensures
        r@ == env.spec_encoding(),
{
    let mut head: Vec<u8> = Vec::new();
    match env {
        Envelope::Serialised(b) => {
            head.push(0u8);
            let r = encode_framed(&head, b);
            proof {
                assert(head@ =~= seq![0u8]);
            }
            r
        },
        Envelope::DataMap(m) => {
            head.push(1u8);
            let r = encode_framed(&head, m);
            proof {
                assert(head@ =~= seq![1u8]);
            }
            r
        },
    }
}

/// Reads an envelope back from its wire form; every byte string that is not
/// exactly the encoding of one envelope is rejected.
pub fn decode_envelope(s: &Vec<u8>) -> (r: Result<Envelope, CoreError>)
    ensures
        match r {
            Ok(env) => s@ == env.spec_encoding(),
            Err(e) => {
                &&& e == CoreError::SerializationFailure
                &&& forall|b: Seq<u8>| s@ != spec_env_serialised(b) && s@ != spec_env_datamap(b)
            },
        },
{
    match decode_framed(s, 1) {
        None => {
            proof {
                assert forall|b: Seq<u8>|
                    s@ != spec_env_serialised(b) && s@ != spec_env_datamap(b) by {
                    assert(seq![0u8].len() == 1);
                    assert(seq![1u8].len() == 1);
                }
            }
            Err(CoreError::SerializationFailure)
        },
        Some((head, body)) => {
            let tag = head[0];
            if tag == 0 {
                proof {
                    assert(head@ =~= seq![0u8]);
                }
                Ok(Envelope::Serialised(body))
            } else if tag == 1 {
                proof {
                    assert(head@ =~= seq![1u8]);
                }
                Ok(Envelope::DataMap(body))
            } else {
                proof {
                    assert forall|b: Seq<u8>|
                        s@ != spec_env_serialised(b) && s@ != spec_env_datamap(b) by {
                        if s@ == spec_env_serialised(b) {
                            lemma_framed_injective(seq![0u8], b, head@, body@);
                        }
                        if s@ == spec_env_datamap(b) {
                            lemma_framed_injective(seq![1u8], b, head@, body@);
                        }
                    }
                }
                Err(CoreError::SerializationFailure)
            }
        },
    }
}

/// The `u64` held by the eight bytes at `s[offset .. offset + 8]`.
pub fn decode_le64(s: &[u8], offset: usize) -> (r: u64)
    requires
        offset + 8 <= s@.len(),
    ensures
        r as int == le_value(s@.subrange(offset as int, offset + 8)),
{
    let slen: usize = s.len();
    let mut val: u64 = 0;
    let mut i: usize = 8;
    while i > 0
        invariant
            i <= 8,
            offset + 8 <= slen,
            slen == s@.len(),
            val as int == le_value(s@.subrange(offset + i, offset + 8)),
            val < pow256((8 - i) as nat),
        decreases i,
    {
        let ghost old_val = val as int;
        let ghost old_i = i as int;
        i = i - 1;
        let b: u8 = s[offset + i];
        proof {
            lemma_pow256_monotone((8 - old_i) as nat, 7);
            lemma_pow256_values();
        }
        val = val * 256 + (b as u64);
        proof {
            let tail = s@.subrange(offset + old_i, offset + 8);
            let cur = s@.subrange(offset + i, offset + 8);
            assert(cur =~= seq![b] + tail);
            assert(cur.subrange(1, cur.len() as int) =~= tail);
            assert(val as int == cur[0] + 256 * le_value(tail));
            assert(val < pow256((8 - i) as nat)) by {
                assert(256 * old_val <= 256 * (pow256((8 - old_i) as nat) - 1))
                    by (nonlinear_arith)
                    requires
                        old_val <= pow256((8 - old_i) as nat) - 1,
                ;
            }
        }
    }
    val
}

} // verus!
