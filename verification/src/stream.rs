//! The residual stream as a byte string: a header of fixed size, and then blocks of a fixed number
//! of residuals, the last one padded with zeros.

use vstd::prelude::*;
use vstd::utf8::encode_utf8;

use crate::bytes::{
    le_bytes, le_value, lemma_byte_ranges, lemma_le_bytes_len, lemma_le_round_trip, lemma_word_at,
    lemma_words_bytes_concat, lemma_words_bytes_len, push_bytes, push_u32_le, push_u64_le,
    words_bytes,
};
use crate::digest::{sha256, sha256_32};
use crate::hexadecimal::{hex_decode, trim, HexError};
use crate::machine::{shrink_chips, shrink_chips_model};
use crate::residuals::{extend, values_of, ResidualLog};
use crate::rows::{RowProvider, TableModel};
use crate::sizing::{ceil_div, lemma_ceil_div_least};
use crate::tag::text_bytes;
use crate::walk::{are_tables_canonical, shrink_outcome, tables_canonical, walk_shrink_residuals};
use crate::walk_error::WalkError;

verus! {

/// The version of the stream format.
pub const PVRS_VERSION_V0: u32 = 0;

/// The length of the header, in bytes.
pub const HEADER_LEN: usize = 92;

/// Where the counts stand in the header.
pub const COUNTS_AT: usize = 12;

/// What a residual stream is written for.
#[derive(Clone, Copy, Debug)]
pub struct ShrinkResidualStreamParams<'a> {
    /// Statement bytes, in hexadecimal digits, of which the header holds the digest.
    pub statement_hex: &'a str,
    /// Separates domains; the header holds its digest.
    pub shape_id: &'a str,
    /// The number of residuals in a block.
    pub slot_count: u32,
}

/// What was written.
#[derive(Clone, Copy, Debug)]
pub struct ShrinkResidualStreamResult {
    pub slot_count: u32,
    pub block_count: u64,
    pub residuals_emitted: u64,
    pub statement_hash: [u8; 32],
    pub shape_id_hash: [u8; 32],
}

/// Why no residual stream was written to the end.
#[derive(Debug)]
pub enum StreamError {
    /// A block must hold at least one residual.
    NoSlots,
    /// The statement is not hexadecimal.
    Statement(HexError),
    /// The residuals could not be walked to the end.
    Walk(WalkError),
}

/// `n` zeros.
pub open spec fn zeros(n: nat) -> Seq<u32> {
    Seq::new(n, |i: int| 0u32)
}

/// The residuals, padded with zeros to whole blocks.
pub open spec fn padded(residuals: Seq<u32>, slots: nat) -> Seq<u32> {
    residuals + zeros((ceil_div(residuals.len(), slots) * slots - residuals.len()) as nat)
}

/// The bytes of the whole blocks among the residuals.
pub open spec fn whole_blocks(residuals: Seq<u32>, slots: nat) -> Seq<u8> {
    words_bytes(residuals.take(((residuals.len() / slots) * slots) as int))
}

/// The header of a stream.
pub open spec fn stream_header(
    slot_count: u32,
    block_count: nat,
    residuals_emitted: nat,
    statement_hash: Seq<u8>,
    shape_id_hash: Seq<u8>,
) -> Seq<u8> {
    encode_utf8("PVRS"@) + le_bytes(PVRS_VERSION_V0 as nat, 4) + le_bytes(slot_count as nat, 4)
        + le_bytes(block_count, 8) + le_bytes(residuals_emitted, 8) + statement_hash
        + shape_id_hash
}

/// `s` with the bytes from `at` on replaced by `b`.
pub open spec fn overwritten(s: Seq<u8>, at: int, b: Seq<u8>) -> Seq<u8> {
    s.take(at) + b + s.skip(at + b.len())
}

/// A whole stream.
pub open spec fn stream_bytes(
    residuals: Seq<u32>,
    slot_count: u32,
    statement_hash: Seq<u8>,
    shape_id_hash: Seq<u8>,
) -> Seq<u8> {
    stream_header(
        slot_count,
        ceil_div(residuals.len(), slot_count as nat),
        residuals.len(),
        statement_hash,
        shape_id_hash,
    ) + words_bytes(padded(residuals, slot_count as nat))
}

/// What an output holds after a stream was written to it: the header and the blocks are appended,
/// and the counts are then filled in at their place from the start of the output.
pub open spec fn output_with_stream(
    out: Seq<u8>,
    residuals: Seq<u32>,
    slot_count: u32,
    statement_hash: Seq<u8>,
    shape_id_hash: Seq<u8>,
) -> Seq<u8> {
    overwritten(
        out + stream_header(slot_count, 0, 0, statement_hash, shape_id_hash) + words_bytes(
            padded(residuals, slot_count as nat),
        ),
        COUNTS_AT as int,
        le_bytes(ceil_div(residuals.len(), slot_count as nat), 8) + le_bytes(residuals.len(), 8),
    )
}

/// What an output holds after a stream was begun and then given up.
pub open spec fn output_with_begun_stream(
    out: Seq<u8>,
    residuals: Seq<u32>,
    slot_count: u32,
    statement_hash: Seq<u8>,
    shape_id_hash: Seq<u8>,
) -> Seq<u8> {
    out + stream_header(slot_count, 0, 0, statement_hash, shape_id_hash) + whole_blocks(
        residuals,
        slot_count as nat,
    )
}

/// Gathers residuals into blocks.
pub struct BlockWriter {
    slot_count: usize,
    buf: Vec<u32>,
    idx: usize,
    block_count: u64,
    residuals_emitted: u64,
    bytes: Vec<u8>,
    emitted: Ghost<Seq<u32>>,
}

impl BlockWriter {
    /// The residuals that were handed over.
    pub closed spec fn emitted(self) -> Seq<u32> {
        self.emitted@
    }

    /// The size of a block.
    pub closed spec fn slots(self) -> nat {
        self.slot_count as nat
    }

    /// The bytes of the blocks that were written.
    pub closed spec fn written(self) -> Seq<u8> {
        self.bytes@
    }

    /// The number of blocks that were written.
    pub closed spec fn blocks(self) -> nat {
        self.block_count as nat
    }

    /// Whole blocks are written, and the buffer holds what is left, padded with zeros.
    pub closed spec fn wf(self) -> bool {
        let done = self.block_count * self.slot_count;
        &&& self.slot_count > 0
        &&& self.buf@.len() == self.slot_count
        &&& self.idx < self.slot_count
        &&& self.residuals_emitted == self.emitted@.len()
        &&& self.emitted@.len() == done + self.idx
        &&& self.buf@ == self.emitted@.skip(done) + zeros((self.slot_count - self.idx) as nat)
        &&& self.bytes@ == words_bytes(self.emitted@.take(done))
    }

    pub fn new(slot_count: usize) -> (r: BlockWriter)
        requires
            slot_count > 0,
        ensures
            r.wf(),
            r.emitted() == Seq::<u32>::empty(),
            r.slots() == slot_count,
    {
        let mut buf: Vec<u32> = Vec::new();
        let mut i: usize = 0;
        while i < slot_count
            invariant
                i <= slot_count,
                buf@ == zeros(i as nat),
            decreases slot_count - i,
        {
            buf.push(0);
            assert(buf@ =~= zeros((i + 1) as nat));
            i += 1;
        }
        let r = BlockWriter {
            slot_count,
            buf,
            idx: 0,
            block_count: 0,
            residuals_emitted: 0,
            bytes: Vec::new(),
            emitted: Ghost(Seq::empty()),
        };
        proof {
            assert(r.block_count * r.slot_count == 0) by (nonlinear_arith)
                requires
                    r.block_count == 0,
            ;
            assert(r.buf@ =~= Seq::<u32>::empty().skip(0) + zeros(slot_count as nat));
            assert(Seq::<u32>::empty().take(0) =~= Seq::<u32>::empty());
        }
        r
    }

    /// Writes the buffer as a block and empties it.
    fn flush_block(&mut self)
        requires
            old(self).slot_count > 0,
            old(self).buf@.len() == old(self).slot_count,
            old(self).block_count < u64::MAX,
        ensures
            final(self).slot_count == old(self).slot_count,
            final(self).buf@ == zeros(old(self).slot_count as nat),
            final(self).idx == 0,
            final(self).block_count == old(self).block_count + 1,
            final(self).residuals_emitted == old(self).residuals_emitted,
            final(self).bytes@ == old(self).bytes@ + words_bytes(old(self).buf@),
            final(self).emitted == old(self).emitted,
    {
        let ghost start = self.bytes@;
        let ghost words = self.buf@;
        let mut i: usize = 0;
        assert(start + words_bytes(words.take(0)) =~= start);
        while i < self.slot_count
            invariant
                i <= self.slot_count,
                self.slot_count == old(self).slot_count,
                self.idx == old(self).idx,
                self.block_count == old(self).block_count,
                self.residuals_emitted == old(self).residuals_emitted,
                self.emitted == old(self).emitted,
                words == old(self).buf@,
                words.len() == self.slot_count,
                self.buf@.len() == self.slot_count,
                forall|k: int| 0 <= k < i ==> self.buf@[k] == 0,
                forall|k: int| i <= k < self.slot_count ==> self.buf@[k] == words[k],
                self.bytes@ == start + words_bytes(words.take(i as int)),
            decreases self.slot_count - i,
        {
            let ghost before = self.bytes@;
            push_u32_le(&mut self.bytes, self.buf[i]);
            proof {
                let t = words.take(i + 1);
                assert(t.drop_last() =~= words.take(i as int));
                assert(start + words_bytes(t) =~= before + le_bytes(words[i as int] as nat, 4));
            }
            self.buf.set(i, 0);
            i += 1;
        }
        assert(words.take(words.len() as int) =~= words);
        assert(self.buf@ =~= zeros(self.slot_count as nat));
        self.block_count = self.block_count + 1;
        self.idx = 0;
    }

    /// Takes one more residual.
    pub fn emit(&mut self, r: u32)
        requires
            old(self).wf(),
            old(self).emitted().len() < u64::MAX,
        ensures
            final(self).wf(),
            final(self).emitted() == old(self).emitted().push(r),
            final(self).slots() == old(self).slots(),
    {
        let ghost before = self.emitted@;
        let ghost done = self.block_count * self.slot_count;
        let ghost buffered = self.buf@;
        let ghost all = before.push(r);
        self.residuals_emitted = self.residuals_emitted + 1;
        self.buf.set(self.idx, r);
        self.idx = self.idx + 1;
        proof {
            self.emitted@ = all;
            assert(0 <= done);
            assert(self.buf@ =~= all.skip(done) + zeros((self.slot_count - self.idx) as nat));
            assert(all.take(done) =~= before.take(done));
            assert(self.block_count <= done) by (nonlinear_arith)
                requires
                    done == self.block_count * self.slot_count,
                    self.slot_count > 0,
            ;
        }
        if self.idx == self.slot_count {
            proof {
                let n = self.slot_count as int;
                assert(self.buf@ =~= all.skip(done));
                lemma_words_bytes_concat(all.take(done), all.skip(done));
                assert(all.take(done) + all.skip(done) =~= all);
                assert((self.block_count + 1) * n == done + n) by (nonlinear_arith)
                    requires
                        done == self.block_count * n,
                ;
                assert(all.take(done + n) =~= all);
                assert(all.skip(done + n) =~= Seq::<u32>::empty());
            }
            self.flush_block();
            assert(self.buf@ =~= all.skip(all.len() as int) + zeros(self.slot_count as nat));
        }
    }

    /// Writes what is left in the buffer, if anything, as a last block.
    pub fn finish(&mut self)
        requires
            old(self).wf(),
        ensures
            final(self).written() == words_bytes(
                padded(old(self).emitted(), old(self).slots()),
            ),
            final(self).blocks() == ceil_div(old(self).emitted().len(), old(self).slots()),
            final(self).emitted() == old(self).emitted(),
    {
        let ghost all = self.emitted@;
        let ghost n = self.slot_count as nat;
        let ghost done = self.block_count * self.slot_count;
        proof {
            let c = ceil_div(all.len(), n);
            lemma_ceil_div_least(all.len(), n);
            let b = self.block_count as int;
            assert(c == (if self.idx > 0 { b + 1 } else { b })) by (nonlinear_arith)
                requires
                    all.len() == b * n + self.idx,
                    0 <= self.idx < n,
                    all.len() <= c * n,
                    c * n < all.len() + n,
            ;
            assert((b + 1) * n == b * n + n) by (nonlinear_arith);
            assert(b <= done) by (nonlinear_arith)
                requires
                    done == b * n,
                    n > 0,
                    b >= 0,
            ;
            if self.idx > 0 {
                lemma_words_bytes_concat(all.take(done), self.buf@);
                assert(all.take(done) + self.buf@ =~= padded(all, n));
            } else {
                assert(all.take(done) =~= padded(all, n));
            }
        }
        if self.idx > 0 {
            self.flush_block();
        }
    }

    /// Hands out the bytes of the blocks that were written, and their number.
    pub fn into_parts(self) -> (r: (Vec<u8>, u64))
        ensures
            r.0@ == self.written(),
            r.1 == self.blocks(),
    {
        (self.bytes, self.block_count)
    }

    /// Until it is finished, a writer has written the whole blocks.
    pub proof fn lemma_written_blocks(self)
        requires
            self.wf(),
        ensures
            self.written() == whole_blocks(self.emitted(), self.slots()),
    {
        let n = self.slot_count as int;
        let b = self.block_count as int;
        vstd::arithmetic::div_mod::lemma_fundamental_div_mod_converse(
            self.emitted@.len() as int,
            n,
            b,
            self.idx as int,
        );
        assert(b * n == n * b) by (nonlinear_arith);
    }
}

/// Hands all residuals to a writer.
fn emit_all(residuals: &[u32], slot_count: usize) -> (w: BlockWriter)
    requires
        slot_count > 0,
    ensures
        w.wf(),
        w.emitted() == residuals@,
        w.slots() == slot_count,
{
    let mut w = BlockWriter::new(slot_count);
    let n: usize = residuals.len();
    let mut i: usize = 0;
    while i < n
        invariant
            i <= n,
            n == residuals@.len(),
            w.wf(),
            w.slots() == slot_count,
            w.emitted() == residuals@.take(i as int),
        decreases n - i,
    {
        w.emit(residuals[i]);
        assert(residuals@.take(i as int).push(residuals@[i as int]) =~= residuals@.take(i + 1));
        i += 1;
    }
    assert(residuals@.take(n as int) =~= residuals@);
    w
}

/// Appends the header of a stream whose counts are not known yet.
fn push_header(
    out: &mut Vec<u8>,
    slot_count: u32,
    statement_hash: &[u8; 32],
    shape_id_hash: &[u8; 32],
)
    ensures
        final(out)@ == old(out)@ + stream_header(
            slot_count,
            0,
            0,
            statement_hash@,
            shape_id_hash@,
        ),
{
    let ghost start = out@;
    push_bytes(out, "PVRS".as_bytes());
    push_u32_le(out, PVRS_VERSION_V0);
    push_u32_le(out, slot_count);
    push_u64_le(out, 0);
    push_u64_le(out, 0);
    push_bytes(out, statement_hash);
    push_bytes(out, shape_id_hash);
    assert(out@ =~= start + stream_header(slot_count, 0, 0, statement_hash@, shape_id_hash@));
}

/// The length of a header.
pub proof fn lemma_header_len(
    slot_count: u32,
    block_count: nat,
    residuals_emitted: nat,
    statement_hash: Seq<u8>,
    shape_id_hash: Seq<u8>,
)
    requires
        statement_hash.len() == 32,
        shape_id_hash.len() == 32,
    ensures
        encode_utf8("PVRS"@).len() == 4,
        stream_header(
            slot_count,
            block_count,
            residuals_emitted,
            statement_hash,
            shape_id_hash,
        ).len() == HEADER_LEN,
{
    reveal_strlit("PVRS");
    assert(vstd::utf8::is_ascii_chars("PVRS"@));
    vstd::utf8::is_ascii_chars_encode_utf8("PVRS"@);
    lemma_le_bytes_len(PVRS_VERSION_V0 as nat, 4);
    lemma_le_bytes_len(slot_count as nat, 4);
    lemma_le_bytes_len(block_count, 8);
    lemma_le_bytes_len(residuals_emitted, 8);
}

/// Replaces bytes.
fn overwrite(out: &mut Vec<u8>, at: usize, bytes: &[u8])
    requires
        at + bytes@.len() <= old(out)@.len(),
    ensures
        final(out)@ == overwritten(old(out)@, at as int, bytes@),
{
    let ghost start = out@;
    let len: usize = out.len();
    let mut i: usize = 0;
    assert(out@ =~= overwritten(start, at as int, bytes@.take(0)));
    while i < bytes.len()
        invariant
            i <= bytes@.len(),
            len == start.len(),
            at + bytes@.len() <= start.len(),
            out@ == overwritten(start, at as int, bytes@.take(i as int)),
        decreases bytes@.len() - i,
    {
        out.set(at + i, bytes[i]);
        assert(out@ =~= overwritten(start, at as int, bytes@.take(i + 1)));
        i += 1;
    }
    assert(bytes@.take(bytes@.len() as int) =~= bytes@);
}

/// Writes a stream of given residuals; gives the number of blocks.
pub fn write_stream(
    out: &mut Vec<u8>,
    residuals: &[u32],
    slot_count: u32,
    statement_hash: &[u8; 32],
    shape_id_hash: &[u8; 32],
) -> (r: u64)
    requires
        slot_count > 0,
    ensures
        r == ceil_div(residuals@.len(), slot_count as nat),
        final(out)@ == output_with_stream(
            old(out)@,
            residuals@,
            slot_count,
            statement_hash@,
            shape_id_hash@,
        ),
{
    let ghost start = out@;
    push_header(out, slot_count, statement_hash, shape_id_hash);
    let mut w = emit_all(residuals, slot_count as usize);
    w.finish();
    let (mut blocks, block_count) = w.into_parts();
    out.append(&mut blocks);
    let mut counts: Vec<u8> = Vec::new();
    push_u64_le(&mut counts, block_count);
    push_u64_le(&mut counts, residuals.len() as u64);
    proof {
        lemma_header_len(slot_count, 0, 0, statement_hash@, shape_id_hash@);
        lemma_le_bytes_len(block_count as nat, 8);
        lemma_le_bytes_len(residuals@.len(), 8);
        assert(counts@ =~= le_bytes(block_count as nat, 8) + le_bytes(residuals@.len(), 8));
    }
    overwrite(out, COUNTS_AT, &counts);
    block_count
}

/// Writes the beginning of a stream that is given up: the header without its counts, and the whole
/// blocks.
fn begin_stream(
    out: &mut Vec<u8>,
    residuals: &[u32],
    slot_count: u32,
    statement_hash: &[u8; 32],
    shape_id_hash: &[u8; 32],
)
    requires
        slot_count > 0,
    ensures
        final(out)@ == output_with_begun_stream(
            old(out)@,
            residuals@,
            slot_count,
            statement_hash@,
            shape_id_hash@,
        ),
{
    push_header(out, slot_count, statement_hash, shape_id_hash);
    let w = emit_all(residuals, slot_count as usize);
    proof {
        w.lemma_written_blocks();
    }
    let (mut blocks, _) = w.into_parts();
    out.append(&mut blocks);
}

/// A walk over tables ended with an error, and so did the stream that was begun for it.
pub open spec fn gave_up(
    tables: Map<Seq<char>, TableModel>,
    e: WalkError,
    out0: Seq<u8>,
    out1: Seq<u8>,
    slot_count: u32,
    statement_hash: Seq<u8>,
    shape_id_hash: Seq<u8>,
) -> bool {
    let outcome = shrink_outcome(tables);
    &&& outcome.error == Some(e@)
    &&& out1 == output_with_begun_stream(
        out0,
        values_of(outcome.trace),
        slot_count,
        statement_hash,
        shape_id_hash,
    )
}

/// A walk over tables went well, and its stream was written.
pub open spec fn wrote_stream(
    tables: Map<Seq<char>, TableModel>,
    s: ShrinkResidualStreamResult,
    out0: Seq<u8>,
    out1: Seq<u8>,
    slot_count: u32,
    statement_hash: Seq<u8>,
    shape_id_hash: Seq<u8>,
) -> bool {
    let outcome = shrink_outcome(tables);
    let residuals = values_of(outcome.trace);
    &&& outcome.error is None
    &&& s.slot_count == slot_count
    &&& s.block_count == ceil_div(residuals.len(), slot_count as nat)
    &&& s.residuals_emitted == residuals.len()
    &&& s.statement_hash@ == statement_hash
    &&& s.shape_id_hash@ == shape_id_hash
    &&& out1 == output_with_stream(out0, residuals, slot_count, statement_hash, shape_id_hash)
}

/// Walks the constraints and writes the stream under given digests.
fn write_walked<P: RowProvider>(
    p: &mut P,
    out: &mut Vec<u8>,
    slot_count: u32,
    statement_hash: [u8; 32],
    shape_id_hash: [u8; 32],
) -> (r: Result<ShrinkResidualStreamResult, WalkError>)
    requires
        tables_canonical(old(p).tables(), shrink_chips_model()),
        slot_count > 0,
    ensures
        final(p).tables() == old(p).tables(),
        match r {
            Ok(s) => wrote_stream(
                old(p).tables(),
                s,
                old(out)@,
                final(out)@,
                slot_count,
                statement_hash@,
                shape_id_hash@,
            ),
            Err(e) => gave_up(
                old(p).tables(),
                e,
                old(out)@,
                final(out)@,
                slot_count,
                statement_hash@,
                shape_id_hash@,
            ),
        },
{
    let mut log = ResidualLog::new();
    let ghost start = log@;
    let ghost tables = p.tables();
    let ghost trace = shrink_outcome(tables).trace;
    let walked = walk_shrink_residuals(p, &mut log);
    proof {
        assert(extend(start, trace).residuals =~= values_of(trace));
    }
    if let Err(e) = walked {
        begin_stream(out, &log.residuals, slot_count, &statement_hash, &shape_id_hash);
        return Err(e);
    }
    let block_count: u64 = write_stream(
        out,
        &log.residuals,
        slot_count,
        &statement_hash,
        &shape_id_hash,
    );
    Ok(
        ShrinkResidualStreamResult {
            slot_count,
            block_count,
            residuals_emitted: log.residuals.len() as u64,
            statement_hash,
            shape_id_hash,
        },
    )
}

/// What writing the stream of tables comes to: how the output grows, and what is returned.
pub open spec fn streamed(
    tables: Map<Seq<char>, TableModel>,
    params: ShrinkResidualStreamParams<'_>,
    out0: Seq<u8>,
    out1: Seq<u8>,
    r: Result<ShrinkResidualStreamResult, StreamError>,
) -> bool {
    if params.slot_count == 0 {
        (r matches Err(StreamError::NoSlots)) && out1 == out0
    } else {
        match text_bytes(params.statement_hex@) {
            Err(e) => (r matches Err(StreamError::Statement(e1)) && e1 == e) && out1 == out0,
            Ok(statement) => match r {
                Ok(s) => wrote_stream(
                    tables,
                    s,
                    out0,
                    out1,
                    params.slot_count,
                    sha256(statement),
                    sha256(encode_utf8(params.shape_id@)),
                ),
                Err(StreamError::Walk(e)) => gave_up(
                    tables,
                    e,
                    out0,
                    out1,
                    params.slot_count,
                    sha256(statement),
                    sha256(encode_utf8(params.shape_id@)),
                ),
                Err(_) => false,
            },
        }
    }
}

/// There are slots, and the statement is well-formed: a stream can be begun.
pub open spec fn can_begin(params: ShrinkResidualStreamParams<'_>) -> bool {
    params.slot_count != 0 && text_bytes(params.statement_hex@) is Ok
}

/// Walks the constraints and writes the residuals, in the order in which the tag takes them, as a
/// stream. Nothing is read where there are no slots or the statement is malformed.
pub fn write_shrink_residual_stream<P: RowProvider>(
    p: &mut P,
    out: &mut Vec<u8>,
    params: ShrinkResidualStreamParams<'_>,
) -> (r: Result<ShrinkResidualStreamResult, StreamError>)
    requires
        can_begin(params) ==> tables_canonical(old(p).tables(), shrink_chips_model()),
    ensures
        final(p).tables() == old(p).tables(),
        !can_begin(params) ==> *final(p) == *old(p),
        streamed(old(p).tables(), params, old(out)@, final(out)@, r),
{
    if params.slot_count == 0 {
        return Err(StreamError::NoSlots);
    }
    let statement = match hex_decode(trim(params.statement_hex)) {
        Ok(b) => b,
        Err(e) => {
            return Err(StreamError::Statement(e));
        },
    };
    let statement_hash = sha256_32(&statement);
    let shape_id_hash = sha256_32(params.shape_id.as_bytes());
    match write_walked(p, out, params.slot_count, statement_hash, shape_id_hash) {
        Ok(s) => Ok(s),
        Err(e) => Err(StreamError::Walk(e)),
    }
}

/// Writes the stream where the tables hold canonical field elements; otherwise gives `None` and
/// leaves the output as it is. Missing slots and a malformed statement are reported in any case, and
/// nothing is read.
pub fn try_write_shrink_residual_stream<P: RowProvider>(
    p: &mut P,
    out: &mut Vec<u8>,
    params: ShrinkResidualStreamParams<'_>,
) -> (r: Option<Result<ShrinkResidualStreamResult, StreamError>>)
    ensures
        final(p).tables() == old(p).tables(),
        !can_begin(params) ==> *final(p) == *old(p),
        r is None <==> can_begin(params) && !tables_canonical(
            old(p).tables(),
            shrink_chips_model(),
        ),
        match r {
            Some(written) => streamed(old(p).tables(), params, old(out)@, final(out)@, written),
            None => final(out)@ == old(out)@,
        },
{
    let begins = params.slot_count != 0 && hex_decode(trim(params.statement_hex)).is_ok();
    if begins && !are_tables_canonical(p, &shrink_chips()) {
        return None;
    }
    Some(write_shrink_residual_stream(p, out, params))
}

/// A stream that is written to an empty output is the header with its counts, and then the blocks.
pub proof fn law_fresh_output_is_stream(
    residuals: Seq<u32>,
    slot_count: u32,
    statement_hash: Seq<u8>,
    shape_id_hash: Seq<u8>,
)
    requires
        slot_count > 0,
        statement_hash.len() == 32,
        shape_id_hash.len() == 32,
    ensures
        output_with_stream(
            Seq::empty(),
            residuals,
            slot_count,
            statement_hash,
            shape_id_hash,
        ) == stream_bytes(residuals, slot_count, statement_hash, shape_id_hash),
{
    let blocks = ceil_div(residuals.len(), slot_count as nat);
    lemma_header_len(slot_count, 0, 0, statement_hash, shape_id_hash);
    lemma_header_len(slot_count, blocks, residuals.len(), statement_hash, shape_id_hash);
    lemma_le_bytes_len(PVRS_VERSION_V0 as nat, 4);
    lemma_le_bytes_len(slot_count as nat, 4);
    lemma_le_bytes_len(0, 8);
    lemma_le_bytes_len(blocks, 8);
    lemma_le_bytes_len(residuals.len(), 8);
    assert(output_with_stream(
        Seq::empty(),
        residuals,
        slot_count,
        statement_hash,
        shape_id_hash,
    ) =~= stream_bytes(residuals, slot_count, statement_hash, shape_id_hash));
}

/// A stream can be read back: the header holds the counts and the digests, the residuals follow in
/// order, and the rest of the last block is zero.
pub proof fn law_stream_can_be_read(
    residuals: Seq<u32>,
    slot_count: u32,
    statement_hash: Seq<u8>,
    shape_id_hash: Seq<u8>,
)
    requires
        slot_count > 0,
        residuals.len() <= u64::MAX,
        statement_hash.len() == 32,
        shape_id_hash.len() == 32,
    ensures
        ({
            let s = stream_bytes(residuals, slot_count, statement_hash, shape_id_hash);
            let blocks = ceil_div(residuals.len(), slot_count as nat);
            &&& s.len() == HEADER_LEN + 4 * (blocks * slot_count)
            &&& le_value(s.subrange(8, 12)) == slot_count
            &&& le_value(s.subrange(12, 20)) == blocks
            &&& le_value(s.subrange(20, 28)) == residuals.len()
            &&& s.subrange(28, 60) == statement_hash
            &&& s.subrange(60, 92) == shape_id_hash
            &&& forall|i: int|
                0 <= i < residuals.len() ==> le_value(
                    s.subrange(HEADER_LEN + 4 * i, HEADER_LEN + 4 * i + 4),
                ) == #[trigger] residuals[i]
            &&& forall|i: int|
                residuals.len() <= i < blocks * slot_count ==> le_value(
                    #[trigger] s.subrange(HEADER_LEN + 4 * i, HEADER_LEN + 4 * i + 4),
                ) == 0
        }),
{
    let s = stream_bytes(residuals, slot_count, statement_hash, shape_id_hash);
    let blocks = ceil_div(residuals.len(), slot_count as nat);
    let all = padded(residuals, slot_count as nat);
    let body = words_bytes(all);
    lemma_header_len(slot_count, blocks, residuals.len(), statement_hash, shape_id_hash);
    lemma_ceil_div_least(residuals.len(), slot_count as nat);
    lemma_words_bytes_len(all);
    lemma_byte_ranges();
    lemma_le_bytes_len(PVRS_VERSION_V0 as nat, 4);
    lemma_le_round_trip(slot_count as nat, 4);
    lemma_le_round_trip(blocks, 8);
    lemma_le_round_trip(residuals.len(), 8);
    assert(s.subrange(8, 12) =~= le_bytes(slot_count as nat, 4));
    assert(s.subrange(12, 20) =~= le_bytes(blocks, 8));
    assert(s.subrange(20, 28) =~= le_bytes(residuals.len(), 8));
    assert(s.subrange(28, 60) =~= statement_hash);
    assert(s.subrange(60, 92) =~= shape_id_hash);
    assert forall|i: int| 0 <= i < all.len() implies le_value(
        #[trigger] s.subrange(HEADER_LEN + 4 * i, HEADER_LEN + 4 * i + 4),
    ) == all[i] by {
        lemma_word_at(all, i);
        assert(s.subrange(HEADER_LEN + 4 * i, HEADER_LEN + 4 * i + 4) =~= body.subrange(
            4 * i,
            4 * i + 4,
        ));
    }
    assert forall|i: int| 0 <= i < residuals.len() implies le_value(
        s.subrange(HEADER_LEN + 4 * i, HEADER_LEN + 4 * i + 4),
    ) == #[trigger] residuals[i] by {
        assert(all[i] == residuals[i]);
    }
}

} // verus!
