//! The statement that a tag is bound to.

use vstd::prelude::*;
use vstd::utf8::encode_utf8;

use crate::bytes::{le_bytes, push_bytes, push_u32_le};
use crate::digest::{sha256, sha256_vec};
use crate::hexadecimal::{hex_encode, hex_encoded, lemma_hex_round_trip, HexError};
use crate::tag::text_bytes;

verus! {

/// A byte string behind its length, of which the 32 lowest bits are written.
pub open spec fn len_prefixed(bytes: Seq<u8>) -> Seq<u8> {
    le_bytes(bytes.len() % 0x1_0000_0000, 4) + bytes
}

/// The statement on a verifying key and public values, given by their digests.
pub open spec fn statement_of(
    shape_id: Seq<char>,
    sp1_version: Seq<char>,
    vk_hash: Seq<u8>,
    public_values_hash: Seq<u8>,
) -> Seq<u8> {
    encode_utf8("sp1.tracka.shrink.statement.v0"@) + len_prefixed(encode_utf8(shape_id))
        + len_prefixed(encode_utf8(sp1_version)) + vk_hash + public_values_hash
}

/// Appends a byte string behind its length.
pub fn push_len_prefixed(out: &mut Vec<u8>, bytes: &[u8])
    ensures
        final(out)@ == old(out)@ + len_prefixed(bytes@),
{
    let ghost start = out@;
    let len: u32 = (bytes.len() as u64 % 0x1_0000_0000) as u32;
    push_u32_le(out, len);
    push_bytes(out, bytes);
    assert(out@ =~= start + len_prefixed(bytes@));
}

/// Encodes the statement on a verifying key and public values, given by their digests.
pub fn encode_statement(
    shape_id: &str,
    sp1_version: &str,
    vk_hash: &[u8],
    public_values_hash: &[u8],
) -> (r: Vec<u8>)
    ensures
        r@ == statement_of(shape_id@, sp1_version@, vk_hash@, public_values_hash@),
{
    let mut out: Vec<u8> = Vec::new();
    push_bytes(&mut out, "sp1.tracka.shrink.statement.v0".as_bytes());
    push_len_prefixed(&mut out, shape_id.as_bytes());
    push_len_prefixed(&mut out, sp1_version.as_bytes());
    push_bytes(&mut out, vk_hash);
    push_bytes(&mut out, public_values_hash);
    assert(out@ =~= statement_of(shape_id@, sp1_version@, vk_hash@, public_values_hash@));
    out
}

/// A statement with its digests, all in hexadecimal digits.
#[derive(Debug)]
pub struct ShrinkStatement {
    pub vk_hash: String,
    pub public_values_hash: String,
    pub statement_hash: String,
    pub statement_hex: String,
}

/// Derives the statement on a serialised verifying key and public values.
pub fn derive_shrink_statement(
    shape_id: &str,
    sp1_version: &str,
    vk_bytes: &[u8],
    public_values: &[u8],
) -> (r: ShrinkStatement)
    ensures
        r.vk_hash@ == hex_encoded(sha256(vk_bytes@)),
        r.public_values_hash@ == hex_encoded(sha256(public_values@)),
        ({
            let statement = statement_of(
                shape_id@,
                sp1_version@,
                sha256(vk_bytes@),
                sha256(public_values@),
            );
            &&& r.statement_hash@ == hex_encoded(sha256(statement))
            &&& r.statement_hex@ == hex_encoded(statement)
        }),
{
    let vk_hash = sha256_vec(vk_bytes);
    let public_values_hash = sha256_vec(public_values);
    let statement = encode_statement(shape_id, sp1_version, &vk_hash, &public_values_hash);
    let statement_hash = sha256_vec(&statement);
    ShrinkStatement {
        vk_hash: hex_encode(&vk_hash),
        public_values_hash: hex_encode(&public_values_hash),
        statement_hash: hex_encode(&statement_hash),
        statement_hex: hex_encode(&statement),
    }
}

/// The text that is printed for a statement can be handed to the tag and the stream: they read the
/// same statement from it, and so bind the digest that is printed.
pub proof fn law_statement_text_is_bound(statement: Seq<u8>)
    ensures
        text_bytes(hex_encoded(statement)) == Ok::<Seq<u8>, HexError>(statement),
{
    lemma_hex_round_trip(statement);
}

/// Two statements with short texts and digests of 32 bytes are equal only where shape, version and
/// digests are.
#[verifier::spinoff_prover]
#[verifier::rlimit(40)]
pub proof fn law_statement_is_injective(
    shape1: Seq<char>,
    version1: Seq<char>,
    vk1: Seq<u8>,
    pv1: Seq<u8>,
    shape2: Seq<char>,
    version2: Seq<char>,
    vk2: Seq<u8>,
    pv2: Seq<u8>,
)
    requires
        encode_utf8(shape1).len() < 0x1_0000_0000,
        encode_utf8(shape2).len() < 0x1_0000_0000,
        encode_utf8(version1).len() < 0x1_0000_0000,
        encode_utf8(version2).len() < 0x1_0000_0000,
        vk1.len() == 32,
        vk2.len() == 32,
        pv1.len() == 32,
        pv2.len() == 32,
        statement_of(shape1, version1, vk1, pv1) == statement_of(shape2, version2, vk2, pv2),
    ensures
        shape1 == shape2,
        version1 == version2,
        vk1 == vk2,
        pv1 == pv2,
{
    let tag = encode_utf8("sp1.tracka.shrink.statement.v0"@);
    let s1 = encode_utf8(shape1);
    let s2 = encode_utf8(shape2);
    let v1 = encode_utf8(version1);
    let v2 = encode_utf8(version2);
    let rest1 = len_prefixed(v1) + vk1 + pv1;
    let rest2 = len_prefixed(v2) + vk2 + pv2;
    let a = statement_of(shape1, version1, vk1, pv1);
    let b = statement_of(shape2, version2, vk2, pv2);
    assert(a =~= tag + (len_prefixed(s1) + rest1));
    assert(b =~= tag + (len_prefixed(s2) + rest2));
    assert(a.skip(tag.len() as int) =~= len_prefixed(s1) + rest1);
    assert(b.skip(tag.len() as int) =~= len_prefixed(s2) + rest2);
    lemma_prefix_free(s1, rest1, s2, rest2);
    assert(rest1 =~= len_prefixed(v1) + (vk1 + pv1));
    assert(rest2 =~= len_prefixed(v2) + (vk2 + pv2));
    lemma_prefix_free(v1, vk1 + pv1, v2, vk2 + pv2);
    assert((vk1 + pv1).take(32) =~= vk1);
    assert((vk2 + pv2).take(32) =~= vk2);
    assert((vk1 + pv1).skip(32) =~= pv1);
    assert((vk2 + pv2).skip(32) =~= pv2);
    crate::text::lemma_encoding_injective(shape1, shape2);
    crate::text::lemma_encoding_injective(version1, version2);
}

/// A byte string behind its length tells where it ends.
pub proof fn lemma_prefix_free(a: Seq<u8>, rest1: Seq<u8>, b: Seq<u8>, rest2: Seq<u8>)
    requires
        a.len() < 0x1_0000_0000,
        b.len() < 0x1_0000_0000,
        len_prefixed(a) + rest1 == len_prefixed(b) + rest2,
    ensures
        a == b,
        rest1 == rest2,
{
    let x = len_prefixed(a) + rest1;
    let y = len_prefixed(b) + rest2;
    crate::bytes::lemma_byte_ranges();
    crate::bytes::lemma_le_round_trip(a.len(), 4);
    crate::bytes::lemma_le_round_trip(b.len(), 4);
    assert(x.take(4) =~= le_bytes(a.len(), 4));
    assert(y.take(4) =~= le_bytes(b.len(), 4));
    assert(a.len() == b.len());
    assert(x.subrange(4, (4 + a.len()) as int) =~= a);
    assert(y.subrange(4, (4 + b.len()) as int) =~= b);
    assert(x.skip((4 + a.len()) as int) =~= rest1);
    assert(y.skip((4 + b.len()) as int) =~= rest2);
}

} // verus!
