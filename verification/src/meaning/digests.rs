//! What the digests of the tag and the stream are taken of, and how numbers are spelled.

use vstd::prelude::*;
use vstd::utf8::{encode_utf8, is_ascii_chars_encode_utf8};

use crate::bytes::{
    le_bytes, le_value, lemma_byte_ranges, lemma_le_bytes_of_value, lemma_le_round_trip,
};
use crate::digest::sha256;
use crate::hexadecimal::{hex_encoded, HexError};
use crate::residuals::values_of;
use crate::rows::TableModel;
use crate::statement::{law_statement_text_is_bound, statement_of};
use crate::tag::{
    alpha_input, alpha_limbs_of, alpha_of, coefficient, coefficient_input, key_of,
    law_moduli_are_primes, lemma_primes_positive, shown_alpha, tag_of, tag_result, text_bytes, weighted_sum,
    KeyError, TagErrorView, TagParamsView, TagResultView, P64_CANDIDATES,
};
use crate::walk::shrink_outcome;

verus! {

/// Numbers are spelled lowest byte first.
pub proof fn law_numbers_are_little_endian(b: Seq<u8>)
    ensures
        b.len() == 2 ==> le_value(b) == b[0] + 0x100 * b[1],
        b.len() == 4 ==> le_value(b) == b[0] + 0x100 * b[1] + 0x1_0000 * b[2] + 0x100_0000 * b[3],
        b.len() == 8 ==> le_value(b) == b[0] + 0x100 * b[1] + 0x1_0000 * b[2] + 0x100_0000 * b[3]
            + 0x1_0000_0000 * b[4] + 0x100_0000_0000 * b[5] + 0x1_0000_0000_0000 * b[6]
            + 0x100_0000_0000_0000 * b[7],
        le_bytes(le_value(b), b.len()) == b,
{
    lemma_le_bytes_of_value(b);
    let b1 = b.skip(1);
    let b2 = b1.skip(1);
    let b3 = b2.skip(1);
    let b4 = b3.skip(1);
    let b5 = b4.skip(1);
    let b6 = b5.skip(1);
    let b7 = b6.skip(1);
    let b8 = b7.skip(1);
    if b.len() == 2 {
        assert(le_value(b2) == 0);
        assert(le_value(b1) == b[1]);
    } else if b.len() == 4 {
        assert(le_value(b4) == 0);
        assert(le_value(b3) == b[3]);
        assert(le_value(b2) == b[2] + 256 * b[3]);
        assert(le_value(b1) == b[1] + 256 * le_value(b2));
    } else if b.len() == 8 {
        assert(le_value(b8) == 0);
        assert(le_value(b7) == b[7]);
        assert(le_value(b6) == b[6] + 256 * le_value(b7));
        assert(le_value(b5) == b[5] + 256 * le_value(b6));
        assert(le_value(b4) == b[4] + 256 * le_value(b5));
        assert(le_value(b3) == b[3] + 256 * le_value(b4));
        assert(le_value(b2) == b[2] + 256 * le_value(b3));
        assert(le_value(b1) == b[1] + 256 * le_value(b2));
    }
}

/// Bytes that spell a seed, a statement digest, and numbers for the armer, the residual and the limb,
/// one behind the other.
pub open spec fn spells_coefficient(
    input: Seq<u8>,
    seed: Seq<u8>,
    sh: Seq<u8>,
    armer_id: u32,
    idx: nat,
    limb: u32,
) -> bool {
    &&& input.len() == 80
    &&& input.subrange(0, 32) == seed
    &&& input.subrange(32, 64) == sh
    &&& le_value(input.subrange(64, 68)) == armer_id
    &&& le_value(input.subrange(68, 76)) == idx
    &&& le_value(input.subrange(76, 80)) == limb
}

/// The digest of a coefficient is taken of the seed, the statement digest, the armer, the number of the
/// residual and the limb, all of which can be read from what it is taken of.
pub proof fn law_coefficient_input_is_readable(
    seed: Seq<u8>,
    sh: Seq<u8>,
    armer_id: u32,
    idx: nat,
    limb: u32,
)
    requires
        seed.len() == 32,
        sh.len() == 32,
        idx <= u64::MAX,
    ensures
        spells_coefficient(
            coefficient_input(seed, sh, armer_id, idx, limb),
            seed,
            sh,
            armer_id,
            idx,
            limb,
        ),
{
    let input = coefficient_input(seed, sh, armer_id, idx, limb);
    lemma_byte_ranges();
    lemma_le_round_trip(armer_id as nat, 4);
    lemma_le_round_trip(idx, 8);
    lemma_le_round_trip(limb as nat, 4);
    assert(input.subrange(0, 32) =~= seed);
    assert(input.subrange(32, 64) =~= sh);
    assert(input.subrange(64, 68) =~= le_bytes(armer_id as nat, 4));
    assert(input.subrange(68, 76) =~= le_bytes(idx, 8));
    assert(input.subrange(76, 80) =~= le_bytes(limb as nat, 4));
}

/// Different seeds, statements, armers, residuals or limbs give different inputs to the digest.
pub proof fn law_coefficient_inputs_differ(
    seed1: Seq<u8>,
    sh1: Seq<u8>,
    armer1: u32,
    idx1: nat,
    limb1: u32,
    seed2: Seq<u8>,
    sh2: Seq<u8>,
    armer2: u32,
    idx2: nat,
    limb2: u32,
)
    requires
        seed1.len() == 32,
        sh1.len() == 32,
        idx1 <= u64::MAX,
        seed2.len() == 32,
        sh2.len() == 32,
        idx2 <= u64::MAX,
        coefficient_input(seed1, sh1, armer1, idx1, limb1) == coefficient_input(
            seed2,
            sh2,
            armer2,
            idx2,
            limb2,
        ),
    ensures
        seed1 == seed2,
        sh1 == sh2,
        armer1 == armer2,
        idx1 == idx2,
        limb1 == limb2,
{
    law_coefficient_input_is_readable(seed1, sh1, armer1, idx1, limb1);
    law_coefficient_input_is_readable(seed2, sh2, armer2, idx2, limb2);
}

/// Only one byte string spells given parts.
proof fn lemma_spelled_input(
    input: Seq<u8>,
    seed: Seq<u8>,
    sh: Seq<u8>,
    armer_id: u32,
    idx: nat,
    limb: u32,
)
    requires
        spells_coefficient(input, seed, sh, armer_id, idx, limb),
    ensures
        input == coefficient_input(seed, sh, armer_id, idx, limb),
{
    lemma_le_bytes_of_value(input.subrange(64, 68));
    lemma_le_bytes_of_value(input.subrange(68, 76));
    lemma_le_bytes_of_value(input.subrange(76, 80));
    assert(input =~= input.subrange(0, 32) + input.subrange(32, 64) + input.subrange(64, 68)
        + input.subrange(68, 76) + input.subrange(76, 80));
}

/// The tag of a single residual: where all residuals but number `k` are zero, each limb of the tag is
/// that residual times the number that the first 8 bytes of the digest of its parts spell, in the field
/// of the limb. Together with linearity this determines the tag of every stream.
pub proof fn law_tag_of_single_residual(
    seed: Seq<u8>,
    sh: Seq<u8>,
    armer_id: u32,
    residuals: Seq<u32>,
    k: int,
    limb: int,
    input: Seq<u8>,
)
    requires
        0 <= limb < 4,
        0 <= k < residuals.len(),
        forall|i: int| 0 <= i < residuals.len() && i != k ==> #[trigger] residuals[i] == 0,
        spells_coefficient(input, seed, sh, armer_id, k as nat, limb as u32),
        sha256(input).len() == 32,
    ensures
        tag_of(seed, sh, armer_id, residuals).len() == 4,
        tag_of(seed, sh, armer_id, residuals)[limb] == (residuals[k] * le_value(
            sha256(input).subrange(0, 8),
        )) % (P64_CANDIDATES[limb] as int),
{
    let p = P64_CANDIDATES[limb];
    lemma_primes_positive();
    lemma_spelled_input(input, seed, sh, armer_id, k as nat, limb as u32);
    lemma_single_sum(seed, sh, armer_id, residuals, limb as u32, p, k, residuals.len());
    let c = coefficient(seed, sh, armer_id, k as nat, limb as u32, p);
    let x = le_value(sha256(input).subrange(0, 8)) as int;
    assert(sha256(input).subrange(0, 8) =~= sha256(input).take(8));
    let v = residuals[k] as int;
    assert(c == x % (p as int));
    vstd::arithmetic::div_mod::lemma_mul_mod_noop_left(x, v, p as int);
    vstd::arithmetic::mul::lemma_mul_is_commutative(x, v);
    vstd::arithmetic::div_mod::lemma_mod_bound(v * x, p as int);
}

proof fn lemma_single_sum(
    seed: Seq<u8>,
    sh: Seq<u8>,
    armer_id: u32,
    residuals: Seq<u32>,
    limb: u32,
    p: u64,
    k: int,
    n: nat,
)
    requires
        n <= residuals.len(),
        0 <= k < residuals.len(),
        forall|i: int| 0 <= i < residuals.len() && i != k ==> #[trigger] residuals[i] == 0,
    ensures
        weighted_sum(seed, sh, armer_id, residuals, limb, p, n) == (if n > k {
            coefficient(seed, sh, armer_id, k as nat, limb, p) * residuals[k]
        } else {
            0
        }),
    decreases n,
{
    if n > 0 {
        lemma_single_sum(seed, sh, armer_id, residuals, limb, p, k, (n - 1) as nat);
        let c = coefficient(seed, sh, armer_id, (n - 1) as nat, limb, p);
        if n - 1 != k {
            assert(residuals[n - 1] == 0);
            assert(c * 0 == 0);
        }
    }
}

/// A text is a key exactly where it spells 32 bytes.
pub proof fn law_key_has_32_bytes(text: Seq<char>)
    ensures
        match key_of(text) {
            Ok(k) => k.len() == 32 && text_bytes(text) == Ok::<Seq<u8>, HexError>(k),
            Err(KeyError::Length) => text_bytes(text) is Ok && text_bytes(text)->Ok_0.len() != 32,
            Err(KeyError::Hex(e)) => text_bytes(text) == Err::<Seq<u8>, HexError>(e),
        },
{
}

/// The digest of a derived target is taken of a domain tag, the seed, the shape, the statement digest and
/// the armer, all of which can be read from what it is taken of.
pub proof fn law_target_input_is_readable(
    seed: Seq<u8>,
    shape_id: Seq<char>,
    sh: Seq<u8>,
    armer_id: u32,
)
    requires
        seed.len() == 32,
        sh.len() == 32,
    ensures
        ({
            let input = alpha_input(seed, shape_id, sh, armer_id);
            let n = input.len() as int;
            &&& n == 82 + encode_utf8(shape_id).len()
            &&& input.subrange(0, 14) == encode_utf8("pvugc.alpha.v0"@)
            &&& input.subrange(14, 46) == seed
            &&& input.subrange(46, n - 36) == encode_utf8(shape_id)
            &&& input.subrange(n - 36, n - 4) == sh
            &&& le_value(input.subrange(n - 4, n)) == armer_id
        }),
{
    let input = alpha_input(seed, shape_id, sh, armer_id);
    let n = input.len() as int;
    lemma_byte_ranges();
    lemma_le_round_trip(armer_id as nat, 4);
    reveal_strlit("pvugc.alpha.v0");
    is_ascii_chars_encode_utf8("pvugc.alpha.v0"@);
    assert(encode_utf8("pvugc.alpha.v0"@).len() == 14);
    assert(input.subrange(0, 14) =~= encode_utf8("pvugc.alpha.v0"@));
    assert(input.subrange(14, 46) =~= seed);
    assert(input.subrange(46, n - 36) =~= encode_utf8(shape_id));
    assert(input.subrange(n - 36, n - 4) =~= sh);
    assert(input.subrange(n - 4, n) =~= le_bytes(armer_id as nat, 4));
}

/// The limbs of a target are the four numbers of 8 bytes that it spells, each in the field of its limb.
pub proof fn law_target_limbs(alpha: Seq<u8>, i: int)
    requires
        alpha.len() == 32,
        0 <= i < 4,
    ensures
        alpha_limbs_of(alpha).len() == 4,
        alpha_limbs_of(alpha)[i] == le_value(alpha.subrange(8 * i, 8 * i + 8)) as int % (
        P64_CANDIDATES[i] as int),
{
    lemma_primes_positive();
    vstd::arithmetic::div_mod::lemma_mod_bound(
        le_value(alpha.subrange(8 * i, 8 * i + 8)) as int,
        P64_CANDIDATES[i] as int,
    );
}

/// Which target counts: the one that is given, and only where none is given the one that is derived from
/// the seed, under the shape, the statement and the armer.
pub proof fn law_which_target(params: TagParamsView, sh: Seq<u8>)
    ensures
        params.alpha_hex matches Some(text) ==> match key_of(text) {
            Ok(k) => alpha_of(params, sh) == Some(Ok::<Seq<u8>, TagErrorView>(k)),
            Err(e) => alpha_of(params, sh) == Some(
                Err::<Seq<u8>, TagErrorView>(TagErrorView::Alpha(e)),
            ),
        },
        params.alpha_hex is None ==> (params.alpha_seed_hex matches Some(text) ==> match key_of(text) {
            Ok(k) => alpha_of(params, sh) == Some(
                Ok::<Seq<u8>, TagErrorView>(
                    sha256(alpha_input(k, params.shape_id, sh, params.armer_id)),
                ),
            ),
            Err(e) => alpha_of(params, sh) == Some(
                Err::<Seq<u8>, TagErrorView>(TagErrorView::AlphaSeed(e)),
            ),
        }),
        params.alpha_hex is None && params.alpha_seed_hex is None ==> alpha_of(params, sh) is None,
{
}

/// The target is shown exactly where there is one, it is well formed and showing it was asked for; the text
/// that is shown spells its bytes, so that handing the text back in gives the same target.
pub proof fn law_shown_target(params: TagParamsView, sh: Seq<u8>)
    ensures
        shown_alpha(params, sh) is Some <==> params.print_alpha && alpha_of(params, sh) is Some
            && alpha_of(params, sh)->0 is Ok,
        shown_alpha(params, sh) matches Some(text) ==> {
            &&& text == hex_encoded(alpha_of(params, sh)->0->Ok_0)
            &&& text_bytes(text) == Ok::<Seq<u8>, HexError>(alpha_of(params, sh)->0->Ok_0)
        },
{
    if let Some(Ok(alpha)) = alpha_of(params, sh) {
        law_statement_text_is_bound(alpha);
    }
}

/// What a tag is computed of: for a statement text and a seed text, the residuals of the walk under the
/// digest of all bytes that the statement text spells. Where a target is given or derived, its limbs are
/// reported, and the lock opens exactly where all four limbs of the tag are those of the target.
pub proof fn law_tag_is_of_whole_statement(
    tables: Map<Seq<char>, TableModel>,
    params: TagParamsView,
    statement: Seq<u8>,
    seed: Seq<u8>,
)
    requires
        text_bytes(params.statement_hex) == Ok::<Seq<u8>, HexError>(statement),
        text_bytes(params.tag_seed_hex) == Ok::<Seq<u8>, HexError>(seed),
        seed.len() == 32,
    ensures
        ({
            let o = shrink_outcome(tables);
            let residuals = values_of(o.trace);
            let r = tag_result(tables, params);
            &&& o.error matches Some(e) ==> r == Err::<TagResultView, TagErrorView>(
                TagErrorView::Walk(e),
            )
            &&& o.error is None ==> match alpha_of(params, sha256(statement)) {
                Some(Err(e)) => r == Err::<TagResultView, TagErrorView>(e),
                Some(Ok(alpha)) => {
                    let t = r->Ok_0;
                    &&& r is Ok
                    &&& t.residuals_emitted == residuals.len()
                    &&& t.tag_mod_p == tag_of(seed, sha256(statement), params.armer_id, residuals)
                    &&& t.alpha_mod_p == Some(alpha_limbs_of(alpha))
                    &&& t.unlock == Some(true) || t.unlock == Some(false)
                    &&& t.unlock == Some(true) <==> forall|i: int|
                        0 <= i < 4 ==> #[trigger] t.tag_mod_p[i] == alpha_limbs_of(alpha)[i]
                },
                None => {
                    let t = r->Ok_0;
                    &&& r is Ok
                    &&& t.residuals_emitted == residuals.len()
                    &&& t.tag_mod_p == tag_of(seed, sha256(statement), params.armer_id, residuals)
                    &&& t.alpha_mod_p is None
                    &&& t.unlock is None
                },
            }
        }),
{
    law_moduli_are_primes();
    let o = shrink_outcome(tables);
    let residuals = values_of(o.trace);
    if let Some(Ok(alpha)) = alpha_of(params, sha256(statement)) {
        let tag = tag_of(seed, sha256(statement), params.armer_id, residuals);
        let limbs = alpha_limbs_of(alpha);
        if forall|i: int| 0 <= i < 4 ==> #[trigger] tag[i] == limbs[i] {
            assert(tag =~= limbs);
        }
    }
}

/// A malformed statement text, and then a malformed seed text, is reported whatever the tables hold.
pub proof fn law_malformed_keys_have_no_tag(
    tables: Map<Seq<char>, TableModel>,
    params: TagParamsView,
)
    ensures
        text_bytes(params.statement_hex) matches Err(e) ==> tag_result(tables, params) == Err::<
            TagResultView,
            TagErrorView,
        >(TagErrorView::Statement(e)),
        text_bytes(params.statement_hex) is Ok ==> (key_of(params.tag_seed_hex) matches Err(
            e,
        ) ==> tag_result(tables, params) == Err::<TagResultView, TagErrorView>(
            TagErrorView::TagSeed(e),
        )),
{
}

/// A statement can be read: behind a domain tag stand the shape and the version, each behind its length,
/// and then the two digests.
pub proof fn law_statement_can_be_read(
    shape_id: Seq<char>,
    version: Seq<char>,
    vk_hash: Seq<u8>,
    public_values_hash: Seq<u8>,
)
    requires
        encode_utf8(shape_id).len() < 0x1_0000_0000,
        encode_utf8(version).len() < 0x1_0000_0000,
        vk_hash.len() == 32,
        public_values_hash.len() == 32,
    ensures
        ({
            let s = statement_of(shape_id, version, vk_hash, public_values_hash);
            let shape = encode_utf8(shape_id);
            let name = encode_utf8(version);
            let at = 34 + shape.len() as int;
            let end = at + 4 + name.len() as int;
            &&& s.len() == end + 64
            &&& s.subrange(0, 30) == encode_utf8("sp1.tracka.shrink.statement.v0"@)
            &&& le_value(s.subrange(30, 34)) == shape.len()
            &&& s.subrange(34, at) == shape
            &&& le_value(s.subrange(at, at + 4)) == name.len()
            &&& s.subrange(at + 4, end) == name
            &&& s.subrange(end, end + 32) == vk_hash
            &&& s.subrange(end + 32, end + 64) == public_values_hash
        }),
{
    let s = statement_of(shape_id, version, vk_hash, public_values_hash);
    let shape = encode_utf8(shape_id);
    let name = encode_utf8(version);
    let at = 34 + shape.len() as int;
    let end = at + 4 + name.len() as int;
    lemma_byte_ranges();
    lemma_le_round_trip(shape.len(), 4);
    lemma_le_round_trip(name.len(), 4);
    reveal_strlit("sp1.tracka.shrink.statement.v0");
    is_ascii_chars_encode_utf8("sp1.tracka.shrink.statement.v0"@);
    let tag = encode_utf8("sp1.tracka.shrink.statement.v0"@);
    assert(tag.len() == 30);
    assert(s.subrange(0, 30) =~= tag);
    assert(s.subrange(30, 34) =~= le_bytes(shape.len(), 4));
    assert(s.subrange(34, at) =~= shape);
    assert(s.subrange(at, at + 4) =~= le_bytes(name.len(), 4));
    assert(s.subrange(at + 4, end) =~= name);
    assert(s.subrange(end, end + 32) =~= vk_hash);
    assert(s.subrange(end + 32, end + 64) =~= public_values_hash);
}

} // verus!
