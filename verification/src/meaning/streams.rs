//! What a residual stream binds, and what can be read from it.

use vstd::prelude::*;
use vstd::utf8::{encode_utf8, is_ascii_chars_encode_utf8};

use crate::bytes::{
    le_bytes, le_value, lemma_byte_ranges, lemma_le_bytes_len, lemma_le_round_trip, lemma_word_at,
    lemma_words_bytes_len, words_bytes,
};
use crate::digest::sha256;
use crate::hexadecimal::{hex_encoded, HexError};
use crate::residuals::values_of;
use crate::rows::TableModel;
use crate::sizing::{ceil_div, lemma_ceil_div_least};
use crate::statement::{law_statement_text_is_bound, statement_of};
use crate::stream::{
    law_fresh_output_is_stream, law_stream_can_be_read, lemma_header_len, output_with_begun_stream,
    output_with_stream, padded, stream_bytes, stream_header, streamed, ShrinkResidualStreamParams,
    ShrinkResidualStreamResult, StreamError, HEADER_LEN, PVRS_VERSION_V0,
};
use crate::tag::text_bytes;
use crate::walk::shrink_outcome;

verus! {

/// Where the digests of a written stream stand in its output.
proof fn lemma_written_digests(
    out: Seq<u8>,
    residuals: Seq<u32>,
    slots: u32,
    a: Seq<u8>,
    b: Seq<u8>,
)
    requires
        slots > 0,
        a.len() == 32,
        b.len() == 32,
    ensures
        ({
            let s = output_with_stream(out, residuals, slots, a, b);
            let n = out.len() as int;
            &&& s.len() >= n + 92
            &&& s.subrange(n + 28, n + 60) == a
            &&& s.subrange(n + 60, n + 92) == b
        }),
{
    let s = output_with_stream(out, residuals, slots, a, b);
    let n = out.len() as int;
    let blocks = ceil_div(residuals.len(), slots as nat);
    lemma_header_len(slots, 0, 0, a, b);
    lemma_le_bytes_len(PVRS_VERSION_V0 as nat, 4);
    lemma_le_bytes_len(slots as nat, 4);
    lemma_le_bytes_len(0, 8);
    lemma_le_bytes_len(blocks, 8);
    lemma_le_bytes_len(residuals.len(), 8);
    assert(s.subrange(n + 28, n + 60) =~= a);
    assert(s.subrange(n + 60, n + 92) =~= b);
}

/// Where the digests of a stream that was given up stand in its output.
proof fn lemma_begun_digests(
    out: Seq<u8>,
    residuals: Seq<u32>,
    slots: u32,
    a: Seq<u8>,
    b: Seq<u8>,
)
    requires
        a.len() == 32,
        b.len() == 32,
    ensures
        ({
            let s = output_with_begun_stream(out, residuals, slots, a, b);
            let n = out.len() as int;
            &&& s.len() >= n + 92
            &&& s.subrange(n + 28, n + 60) == a
            &&& s.subrange(n + 60, n + 92) == b
        }),
{
    let s = output_with_begun_stream(out, residuals, slots, a, b);
    let n = out.len() as int;
    lemma_header_len(slots, 0, 0, a, b);
    lemma_le_bytes_len(PVRS_VERSION_V0 as nat, 4);
    lemma_le_bytes_len(slots as nat, 4);
    lemma_le_bytes_len(0, 8);
    assert(s.subrange(n + 28, n + 60) =~= a);
    assert(s.subrange(n + 60, n + 92) =~= b);
}

/// A stream binds the whole statement and the whole shape: what is returned, and what stands at bytes 28
/// to 92 of the stream, are the digests of all bytes that the statement text spells and of the shape. This
/// holds of a stream that was given up, too.
pub proof fn law_stream_binds_statement(
    tables: Map<Seq<char>, TableModel>,
    params: ShrinkResidualStreamParams<'_>,
    out0: Seq<u8>,
    out1: Seq<u8>,
    r: Result<ShrinkResidualStreamResult, StreamError>,
    statement: Seq<u8>,
)
    requires
        streamed(tables, params, out0, out1, r),
        params.slot_count > 0,
        text_bytes(params.statement_hex@) == Ok::<Seq<u8>, HexError>(statement),
        sha256(statement).len() == 32,
        sha256(encode_utf8(params.shape_id@)).len() == 32,
    ensures
        ({
            let n = out0.len() as int;
            &&& out1.len() >= n + 92
            &&& out1.subrange(n + 28, n + 60) == sha256(statement)
            &&& out1.subrange(n + 60, n + 92) == sha256(encode_utf8(params.shape_id@))
            &&& r matches Ok(s) ==> s.statement_hash@ == sha256(statement) && s.shape_id_hash@ == sha256(
                encode_utf8(params.shape_id@),
            )
            &&& r matches Err(e) ==> e is Walk && shrink_outcome(tables).error == Some(e->Walk_0@)
        }),
{
    let residuals = values_of(shrink_outcome(tables).trace);
    let a = sha256(statement);
    let b = sha256(encode_utf8(params.shape_id@));
    lemma_written_digests(out0, residuals, params.slot_count, a, b);
    lemma_begun_digests(out0, residuals, params.slot_count, a, b);
}

/// The text that is printed for a derived statement binds that statement: the digest of the stream is the
/// digest of the domain tag, the shape, the version and both digests together.
pub proof fn law_stream_binds_derived_statement(
    tables: Map<Seq<char>, TableModel>,
    params: ShrinkResidualStreamParams<'_>,
    out0: Seq<u8>,
    out1: Seq<u8>,
    s: ShrinkResidualStreamResult,
    shape_id: Seq<char>,
    version: Seq<char>,
    vk_hash: Seq<u8>,
    public_values_hash: Seq<u8>,
)
    requires
        streamed(tables, params, out0, out1, Ok(s)),
        params.statement_hex@ == hex_encoded(
            statement_of(shape_id, version, vk_hash, public_values_hash),
        ),
    ensures
        s.statement_hash@ == sha256(statement_of(shape_id, version, vk_hash, public_values_hash)),
{
    law_statement_text_is_bound(statement_of(shape_id, version, vk_hash, public_values_hash));
}

/// A stream that is written to an empty output can be read: behind the letters `PVRS` and the version 0
/// stand the number of slots, the number of blocks, which is the least that holds all residuals, and the
/// number of residuals; behind the digests stand the residuals of the walk in order, and the rest of the
/// last block is zero.
pub proof fn law_written_stream_can_be_read(
    tables: Map<Seq<char>, TableModel>,
    params: ShrinkResidualStreamParams<'_>,
    out: Seq<u8>,
    s: ShrinkResidualStreamResult,
)
    requires
        streamed(tables, params, Seq::empty(), out, Ok(s)),
    ensures
        ({
            let residuals = values_of(shrink_outcome(tables).trace);
            let slots = params.slot_count as int;
            let blocks = s.block_count as int;
            &&& shrink_outcome(tables).error is None
            &&& slots > 0
            &&& s.slot_count == slots
            &&& s.residuals_emitted == residuals.len()
            &&& residuals.len() <= blocks * slots < residuals.len() + slots
            &&& out.len() == 92 + 4 * (blocks * slots)
            &&& out[0] == 0x50 && out[1] == 0x56 && out[2] == 0x52 && out[3] == 0x53
            &&& le_value(out.subrange(4, 8)) == 0
            &&& le_value(out.subrange(8, 12)) == slots
            &&& le_value(out.subrange(12, 20)) == blocks
            &&& le_value(out.subrange(20, 28)) == residuals.len()
            &&& forall|i: int|
                0 <= i < residuals.len() ==> le_value(
                    #[trigger] out.subrange(92 + 4 * i, 96 + 4 * i),
                ) == residuals[i]
            &&& forall|i: int|
                residuals.len() <= i < blocks * slots ==> le_value(
                    #[trigger] out.subrange(92 + 4 * i, 96 + 4 * i),
                ) == 0
        }),
{
    let residuals = values_of(shrink_outcome(tables).trace);
    let slots = params.slot_count;
    let (a, b) = (s.statement_hash@, s.shape_id_hash@);
    assert(a.len() == 32 && b.len() == 32);
    law_fresh_output_is_stream(residuals, slots, a, b);
    law_stream_can_be_read(residuals, slots, a, b);
    lemma_stream_letters(residuals, slots, a, b);
    lemma_ceil_div_least(residuals.len(), slots as nat);
    assert forall|i: int| 0 <= i < residuals.len() implies le_value(
        #[trigger] out.subrange(92 + 4 * i, 96 + 4 * i),
    ) == residuals[i] by {
        assert(out.subrange(HEADER_LEN + 4 * i, HEADER_LEN + 4 * i + 4) == out.subrange(
            92 + 4 * i,
            96 + 4 * i,
        ));
    }
    let blocks = ceil_div(residuals.len(), slots as nat);
    assert forall|i: int| residuals.len() <= i < blocks * slots implies le_value(
        #[trigger] out.subrange(92 + 4 * i, 96 + 4 * i),
    ) == 0 by {
        assert(out.subrange(HEADER_LEN + 4 * i, HEADER_LEN + 4 * i + 4) == out.subrange(
            92 + 4 * i,
            96 + 4 * i,
        ));
    }
}

/// The first bytes of a stream.
proof fn lemma_stream_letters(residuals: Seq<u32>, slots: u32, a: Seq<u8>, b: Seq<u8>)
    requires
        a.len() == 32,
        b.len() == 32,
    ensures
        ({
            let s = stream_bytes(residuals, slots, a, b);
            &&& s.len() >= 92
            &&& s[0] == 0x50 && s[1] == 0x56 && s[2] == 0x52 && s[3] == 0x53
            &&& le_value(s.subrange(4, 8)) == 0
        }),
{
    let s = stream_bytes(residuals, slots, a, b);
    let blocks = ceil_div(residuals.len(), slots as nat);
    lemma_header_len(slots, blocks, residuals.len(), a, b);
    let h = stream_header(slots, blocks, residuals.len(), a, b);
    lemma_byte_ranges();
    lemma_le_round_trip(0, 4);
    reveal_strlit("PVRS");
    is_ascii_chars_encode_utf8("PVRS"@);
    let magic = encode_utf8("PVRS"@);
    assert(magic[0] == 'P' as u8 && magic[1] == 'V' as u8 && magic[2] == 'R' as u8 && magic[3]
        == 'S' as u8);
    assert(h.subrange(0, 4) =~= magic);
    assert(h.subrange(4, 8) =~= le_bytes(0, 4));
    assert(s.subrange(0, 4) =~= h.subrange(0, 4));
    assert(s.subrange(4, 8) =~= h.subrange(4, 8));
    assert(s[0] == s.subrange(0, 4)[0] && s[1] == s.subrange(0, 4)[1] && s[2] == s.subrange(0, 4)[2]
        && s[3] == s.subrange(0, 4)[3]);
}

/// What a stream that was given up leaves behind what was there: the header with no counts, and the
/// residuals until then as far as they fill whole blocks.
pub proof fn law_begun_stream_can_be_read(
    tables: Map<Seq<char>, TableModel>,
    params: ShrinkResidualStreamParams<'_>,
    out0: Seq<u8>,
    out1: Seq<u8>,
    e: StreamError,
    statement: Seq<u8>,
)
    requires
        streamed(tables, params, out0, out1, Err(e)),
        e is Walk,
        text_bytes(params.statement_hex@) == Ok::<Seq<u8>, HexError>(statement),
        sha256(statement).len() == 32,
        sha256(encode_utf8(params.shape_id@)).len() == 32,
    ensures
        ({
            let residuals = values_of(shrink_outcome(tables).trace);
            let slots = params.slot_count as int;
            let n = out0.len() as int;
            let whole = residuals.len() - residuals.len() as int % slots;
            &&& slots > 0
            &&& out1.len() == n + 92 + 4 * whole
            &&& out1.subrange(0, n) == out0
            &&& le_value(out1.subrange(n + 8, n + 12)) == slots
            &&& le_value(out1.subrange(n + 12, n + 20)) == 0
            &&& le_value(out1.subrange(n + 20, n + 28)) == 0
            &&& forall|i: int|
                0 <= i < whole ==> le_value(
                    #[trigger] out1.subrange(n + 92 + 4 * i, n + 96 + 4 * i),
                ) == residuals[i]
        }),
{
    let residuals = values_of(shrink_outcome(tables).trace);
    let slots = params.slot_count;
    let n = out0.len() as int;
    let a = sha256(statement);
    let b = sha256(encode_utf8(params.shape_id@));
    lemma_header_len(slots, 0, 0, a, b);
    lemma_byte_ranges();
    lemma_le_bytes_len(PVRS_VERSION_V0 as nat, 4);
    lemma_le_round_trip(0, 8);
    lemma_le_round_trip(slots as nat, 4);
    let count = (residuals.len() / slots as nat) * slots as nat;
    vstd::arithmetic::div_mod::lemma_fundamental_div_mod(residuals.len() as int, slots as int);
    vstd::arithmetic::mul::lemma_mul_is_commutative(
        slots as int,
        residuals.len() as int / slots as int,
    );
    vstd::arithmetic::div_mod::lemma_mod_bound(residuals.len() as int, slots as int);
    vstd::arithmetic::div_mod::lemma_div_pos_is_pos(residuals.len() as int, slots as int);
    assert(count == residuals.len() - residuals.len() as int % slots as int);
    let kept = residuals.take(count as int);
    lemma_words_bytes_len(kept);
    assert(out1.subrange(0, n) =~= out0);
    assert(out1.subrange(n + 8, n + 12) =~= le_bytes(slots as nat, 4));
    assert(out1.subrange(n + 12, n + 20) =~= le_bytes(0, 8));
    assert(out1.subrange(n + 20, n + 28) =~= le_bytes(0, 8));
    assert forall|i: int| 0 <= i < count implies le_value(
        #[trigger] out1.subrange(n + 92 + 4 * i, n + 96 + 4 * i),
    ) == residuals[i] by {
        lemma_word_at(kept, i);
        assert(out1.subrange(n + 92 + 4 * i, n + 96 + 4 * i) =~= words_bytes(kept).subrange(
            4 * i,
            4 * i + 4,
        ));
    }
}

/// Without slots, or for a text that spells no statement, nothing is written, and the error says which of
/// the two it was.
pub proof fn law_refused_stream_writes_nothing(
    tables: Map<Seq<char>, TableModel>,
    params: ShrinkResidualStreamParams<'_>,
    out0: Seq<u8>,
    out1: Seq<u8>,
    r: Result<ShrinkResidualStreamResult, StreamError>,
)
    requires
        streamed(tables, params, out0, out1, r),
        params.slot_count == 0 || text_bytes(params.statement_hex@) is Err,
    ensures
        out1 == out0,
        r is Err,
        params.slot_count == 0 <==> r->Err_0 is NoSlots,
        params.slot_count > 0 ==> r->Err_0 is Statement && text_bytes(params.statement_hex@) == Err::<
            Seq<u8>,
            HexError,
        >(r->Err_0->Statement_0),
{
}

/// The counts of a finished stream stand at the place that they have in a file of its own, counted from the
/// start of the output; everything else of what was there is kept, and the blocks follow the header.
pub proof fn law_counts_are_filled_in(
    tables: Map<Seq<char>, TableModel>,
    params: ShrinkResidualStreamParams<'_>,
    out0: Seq<u8>,
    out1: Seq<u8>,
    s: ShrinkResidualStreamResult,
    i: int,
)
    requires
        streamed(tables, params, out0, out1, Ok(s)),
    ensures
        ({
            let residuals = values_of(shrink_outcome(tables).trace);
            let n = out0.len() as int;
            &&& out1.len() == n + 92 + 4 * (s.block_count * params.slot_count)
            &&& le_value(out1.subrange(12, 20)) == s.block_count
            &&& le_value(out1.subrange(20, 28)) == residuals.len()
            &&& 0 <= i < n && (i < 12 || 28 <= i) ==> out1[i] == out0[i]
            &&& 0 <= i < residuals.len() ==> le_value(
                out1.subrange(n + 92 + 4 * i, n + 96 + 4 * i),
            ) == residuals[i]
        }),
{
    let residuals = values_of(shrink_outcome(tables).trace);
    let slots = params.slot_count;
    let n = out0.len() as int;
    let a = s.statement_hash@;
    let b = s.shape_id_hash@;
    let blocks = ceil_div(residuals.len(), slots as nat);
    lemma_header_len(slots, 0, 0, a, b);
    lemma_byte_ranges();
    lemma_le_bytes_len(blocks, 8);
    lemma_le_bytes_len(residuals.len(), 8);
    lemma_le_round_trip(blocks, 8);
    lemma_le_round_trip(residuals.len(), 8);
    lemma_ceil_div_least(residuals.len(), slots as nat);
    let words = padded(residuals, slots as nat);
    lemma_words_bytes_len(words);
    assert(out1.subrange(12, 20) =~= le_bytes(blocks, 8));
    assert(out1.subrange(20, 28) =~= le_bytes(residuals.len(), 8));
    if 0 <= i < residuals.len() {
        lemma_word_at(words, i);
        assert(words[i] == residuals[i]);
        assert(out1.subrange(n + 92 + 4 * i, n + 96 + 4 * i) =~= words_bytes(words).subrange(
            4 * i,
            4 * i + 4,
        ));
    }
}

} // verus!
