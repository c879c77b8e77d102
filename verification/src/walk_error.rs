//! How a walk over the constraint tables can end.

use vstd::prelude::*;

use crate::residuals::{
    extend, fails, followed_by, in_sequence, lemma_extend_concat, lemma_extend_empty, LogView,
    Outcome,
};
use crate::rows::{read_of, RowError, RowErrorView, RowProvider, TableModel};

verus! {

/// Why the tables could not be walked to the end.
#[derive(Debug)]
pub enum WalkError {
    /// A required table is not there.
    MissingTable(String),
    /// A table has the wrong number of columns.
    ColumnCount { table: String, expected: u64, got: u64 },
    /// The number of columns of a table is no multiple of `factor`.
    ColumnGranularity { table: String, factor: u32, got: u64 },
    /// A table has the wrong number of rows.
    RowCount { table: String, expected: u64, got: u64 },
    /// Two tables that go together differ in their number of rows.
    RowMismatch { table: String, rows: u32, other: String, other_rows: u32 },
    /// A chip commits to interactions of global scope, which the walk does not cover.
    GlobalScope(String),
    /// A permutation table was made with another batch size than the chip's.
    BatchSize { table: String, expected: u64, got: u64 },
    /// A permutation table has another width, in extension elements, than the chip's.
    PermutationWidth { table: String, expected: u64, got: u64 },
    /// A permutation table has another number of entries than its interactions fill.
    EntryCount { table: String, expected: u64, got: u64 },
    /// A chip refers to columns that its tables do not have.
    ChipColumns(String),
    /// A main trace cannot be committed to: its height is no power of two within reach.
    TraceHeight(String),
    /// A row could not be read.
    Read(RowError),
}

/// The mathematical reading of a [`WalkError`].
pub enum WalkErrorView {
    MissingTable(Seq<char>),
    ColumnCount { table: Seq<char>, expected: nat, got: nat },
    ColumnGranularity { table: Seq<char>, factor: nat, got: nat },
    RowCount { table: Seq<char>, expected: nat, got: nat },
    RowMismatch { table: Seq<char>, rows: nat, other: Seq<char>, other_rows: nat },
    GlobalScope(Seq<char>),
    BatchSize { table: Seq<char>, expected: nat, got: nat },
    PermutationWidth { table: Seq<char>, expected: nat, got: nat },
    EntryCount { table: Seq<char>, expected: nat, got: nat },
    ChipColumns(Seq<char>),
    TraceHeight(Seq<char>),
    Read(RowErrorView),
}

impl View for WalkError {
    type V = WalkErrorView;

    open spec fn view(&self) -> WalkErrorView {
        match *self {
            WalkError::MissingTable(t) => WalkErrorView::MissingTable(t@),
            WalkError::ColumnCount { table, expected, got } => WalkErrorView::ColumnCount {
                table: table@,
                expected: expected as nat,
                got: got as nat,
            },
            WalkError::ColumnGranularity { table, factor, got } => {
                WalkErrorView::ColumnGranularity {
                    table: table@,
                    factor: factor as nat,
                    got: got as nat,
                }
            },
            WalkError::RowCount { table, expected, got } => WalkErrorView::RowCount {
                table: table@,
                expected: expected as nat,
                got: got as nat,
            },
            WalkError::RowMismatch { table, rows, other, other_rows } => {
                WalkErrorView::RowMismatch {
                    table: table@,
                    rows: rows as nat,
                    other: other@,
                    other_rows: other_rows as nat,
                }
            },
            WalkError::GlobalScope(c) => WalkErrorView::GlobalScope(c@),
            WalkError::BatchSize { table, expected, got } => WalkErrorView::BatchSize {
                table: table@,
                expected: expected as nat,
                got: got as nat,
            },
            WalkError::PermutationWidth { table, expected, got } => {
                WalkErrorView::PermutationWidth {
                    table: table@,
                    expected: expected as nat,
                    got: got as nat,
                }
            },
            WalkError::EntryCount { table, expected, got } => WalkErrorView::EntryCount {
                table: table@,
                expected: expected as nat,
                got: got as nat,
            },
            WalkError::ChipColumns(c) => WalkErrorView::ChipColumns(c@),
            WalkError::TraceHeight(c) => WalkErrorView::TraceHeight(c@),
            WalkError::Read(e) => WalkErrorView::Read(e@),
        }
    }
}

/// A walk emitted the whole expected trace and ended as expected.
pub open spec fn completed(
    log0: LogView,
    log1: LogView,
    r: Result<(), WalkError>,
    expected: Outcome<WalkErrorView>,
) -> bool {
    &&& log1 == extend(log0, expected.trace)
    &&& match r {
        Ok(_) => expected.error is None,
        Err(e) => expected.error == Some(e@),
    }
}

/// What a walk from `p0` and `log0` to `p1` and `log1` guarantees: the provider serves the same
/// tables, and the walk did what was expected of it.
pub open spec fn ran<P: RowProvider>(
    p0: P,
    p1: P,
    log0: LogView,
    log1: LogView,
    r: Result<(), WalkError>,
    expected: Outcome<WalkErrorView>,
) -> bool {
    &&& p1.tables() == p0.tables()
    &&& completed(log0, log1, r, expected)
}

/// The error of a read that failed.
pub open spec fn read_error(
    tables: Map<Seq<char>, TableModel>,
    table: Seq<char>,
    row: u32,
) -> Option<WalkErrorView> {
    match read_of(tables, table, row) {
        Ok(_) => None,
        Err(e) => Some(WalkErrorView::Read(e)),
    }
}

/// Reads a row, and then goes on as given.
pub open spec fn after_reading(
    tables: Map<Seq<char>, TableModel>,
    table: Seq<char>,
    row: u32,
    rest: Outcome<WalkErrorView>,
) -> Outcome<WalkErrorView> {
    match read_error(tables, table, row) {
        Some(e) => fails(e),
        None => rest,
    }
}

/// A walk that did nothing but fail.
pub proof fn lemma_ran_failed<P: RowProvider>(p: P, log: LogView, e: WalkError)
    ensures
        ran(p, p, log, log, Err(e), fails(e@)),
{
    lemma_extend_empty(log);
}

/// A walk that went well, followed by another walk.
pub proof fn lemma_ran_then<P: RowProvider>(
    p0: P,
    p1: P,
    p2: P,
    log0: LogView,
    log1: LogView,
    log2: LogView,
    r: Result<(), WalkError>,
    a: Outcome<WalkErrorView>,
    b: Outcome<WalkErrorView>,
)
    requires
        ran(p0, p1, log0, log1, Ok(()), a),
        ran(p1, p2, log1, log2, r, b),
    ensures
        ran(p0, p2, log0, log2, r, followed_by(a, b)),
{
    lemma_extend_concat(log0, a.trace, b.trace);
}

/// A walk that ended with an error is all there is, whatever was to follow.
pub proof fn lemma_ran_stopped<P: RowProvider>(
    p0: P,
    p1: P,
    log0: LogView,
    log1: LogView,
    e: WalkError,
    a: Outcome<WalkErrorView>,
    b: Outcome<WalkErrorView>,
)
    requires
        ran(p0, p1, log0, log1, Err(e), a),
    ensures
        ran(p0, p1, log0, log1, Err(e), followed_by(a, b)),
{
}

/// Before its first step a sequence of walks has done nothing.
pub proof fn lemma_sequence_start<P: RowProvider>(
    p: P,
    log: LogView,
    steps: Seq<Outcome<WalkErrorView>>,
)
    ensures
        ran(p, p, log, log, Ok(()), in_sequence(steps, 0)),
{
    lemma_extend_empty(log);
}

/// One more step of a sequence of walks that went well so far. If it ends with an error, it ends the
/// whole sequence of `n` steps.
pub proof fn lemma_sequence_step<P: RowProvider>(
    p0: P,
    p1: P,
    p2: P,
    log0: LogView,
    log1: LogView,
    log2: LogView,
    r: Result<(), WalkError>,
    steps: Seq<Outcome<WalkErrorView>>,
    i: nat,
    n: nat,
)
    requires
        i < n,
        ran(p0, p1, log0, log1, Ok(()), in_sequence(steps, i)),
        ran(p1, p2, log1, log2, r, steps[i as int]),
    ensures
        ran(p0, p2, log0, log2, r, in_sequence(steps, i + 1)),
        r is Err ==> ran(p0, p2, log0, log2, r, in_sequence(steps, n)),
{
    lemma_ran_then(
        p0,
        p1,
        p2,
        log0,
        log1,
        log2,
        r,
        in_sequence(steps, i),
        steps[i as int],
    );
    if let Err(e) = r {
        lemma_sequence_stopped(p0, p2, log0, log2, e, steps, i + 1, n);
    }
}

proof fn lemma_sequence_stopped<P: RowProvider>(
    p0: P,
    p1: P,
    log0: LogView,
    log1: LogView,
    e: WalkError,
    steps: Seq<Outcome<WalkErrorView>>,
    i: nat,
    n: nat,
)
    requires
        i <= n,
        ran(p0, p1, log0, log1, Err(e), in_sequence(steps, i)),
    ensures
        ran(p0, p1, log0, log1, Err(e), in_sequence(steps, n)),
    decreases n - i,
{
    if i < n {
        lemma_ran_stopped(p0, p1, log0, log1, e, in_sequence(steps, i), steps[i as int]);
        lemma_sequence_stopped(p0, p1, log0, log1, e, steps, i + 1, n);
    }
}

} // verus!
