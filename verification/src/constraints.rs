//! Walking a constraint over the rows of its tables.

use vstd::prelude::*;

use crate::babybear::canonical;
use crate::residuals::{
    emits, followed_by, in_sequence, lemma_extend_empty, row_emissions, Outcome, ResidualLog,
    Section,
};
use crate::rows::{table_canonical, RowProvider, TableModel};
use crate::stream::zeros;
use crate::walk_error::{
    after_reading, lemma_ran_then, lemma_sequence_start, lemma_sequence_step, ran, WalkError,
    WalkErrorView,
};

verus! {

/// A constraint on a single row: a main row and a preprocessed row, either of which may be empty
/// where the constraint does not look at it.
pub trait RowCheck {
    /// The residuals of a row.
    spec fn residuals(&self, main: Seq<u32>, pre: Seq<u32>) -> Seq<u32>;

    /// The row widths that the constraint is made for.
    spec fn accepts(&self, main_cols: nat, pre_cols: nat) -> bool;

    /// Computes the residuals of a row.
    fn check(&self, main: &[u32], pre: &[u32]) -> (r: Vec<u32>)
        requires
            self.accepts(main@.len(), pre@.len()),
            canonical(main@),
            canonical(pre@),
        ensures
            r@ == self.residuals(main@, pre@),
    ;
}

/// A constraint on a row by itself, and on what links it to its successor, which the last row does
/// not have.
pub trait TransitionCheck {
    /// The residuals of row number `row` by itself.
    spec fn residuals(&self, row: u32, main: Seq<u32>, pre: Seq<u32>) -> Seq<u32>;

    /// The residuals of what links a row to its successor.
    spec fn links(
        &self,
        main: Seq<u32>,
        pre: Seq<u32>,
        next_main: Seq<u32>,
        next_pre: Seq<u32>,
    ) -> Seq<u32>;

    /// The number of these residuals.
    spec fn num_links(&self) -> nat;

    /// The preprocessed row of the successor is looked at, and not only its main row.
    spec fn looks_at_next_pre(&self) -> bool;

    /// The row widths that the constraint is made for.
    spec fn accepts(&self, main_cols: nat, pre_cols: nat) -> bool;

    /// Computes the residuals of row number `row` by itself.
    fn check(&self, row: u32, main: &[u32], pre: &[u32]) -> (r: Vec<u32>)
        requires
            self.accepts(main@.len(), pre@.len()),
            canonical(main@),
            canonical(pre@),
        ensures
            r@ == self.residuals(row, main@, pre@),
    ;

    /// Computes the residuals of what links a row to its successor. Where the preprocessed row of
    /// the successor is not looked at, `next_pre` is empty.
    fn check_links(
        &self,
        main: &[u32],
        pre: &[u32],
        next_main: &[u32],
        next_pre: &[u32],
    ) -> (r: Vec<u32>)
        requires
            self.accepts(main@.len(), pre@.len()),
            next_main@.len() == main@.len(),
            self.looks_at_next_pre() ==> next_pre@.len() == pre@.len(),
            canonical(main@),
            canonical(pre@),
            canonical(next_main@),
            canonical(next_pre@),
        ensures
            r@ == self.links(main@, pre@, next_main@, next_pre@),
    ;

    /// The residuals that stand for the links of the last row.
    fn no_links(&self) -> (r: Vec<u32>)
        ensures
            r@ == zeros(self.num_links()),
    ;

    /// Tells whether the preprocessed row of the successor is looked at.
    fn wants_next_pre(&self) -> (r: bool)
        ensures
            r == self.looks_at_next_pre(),
    ;
}

/// Row `i` of a table, or the empty row where no table is given.
pub open spec fn row_of(tables: Map<Seq<char>, TableModel>, table: Option<Seq<char>>, i: int) -> Seq<
    u32,
> {
    match table {
        Some(t) => tables[t].data[i],
        None => Seq::empty(),
    }
}

/// What checking row `i` does: the rows are read, and then the residuals are emitted.
pub open spec fn row_check_step<C: RowCheck>(
    c: C,
    section: Section,
    tables: Map<Seq<char>, TableModel>,
    main: Seq<char>,
    pre: Option<Seq<char>>,
    i: int,
) -> Outcome<WalkErrorView> {
    let row = i as u32;
    let values = c.residuals(tables[main].data[i], row_of(tables, pre, i));
    let checked = emits(row_emissions(section, Some(row), values));
    after_reading(
        tables,
        main,
        row,
        match pre {
            Some(t) => after_reading(tables, t, row, checked),
            None => checked,
        },
    )
}

/// What checking each of the first `n` rows does.
pub open spec fn row_check_steps<C: RowCheck>(
    c: C,
    section: Section,
    tables: Map<Seq<char>, TableModel>,
    main: Seq<char>,
    pre: Option<Seq<char>>,
    n: nat,
) -> Seq<Outcome<WalkErrorView>> {
    Seq::new(n, |i: int| row_check_step(c, section, tables, main, pre, i))
}

/// What walking a row constraint over all rows of its tables does.
pub open spec fn row_check_outcome<C: RowCheck>(
    c: C,
    section: Section,
    tables: Map<Seq<char>, TableModel>,
    main: Seq<char>,
    pre: Option<Seq<char>>,
    n: nat,
) -> Outcome<WalkErrorView> {
    in_sequence(row_check_steps(c, section, tables, main, pre, n), n)
}

/// What checking the links of row `i` of `rows` rows does. The preprocessed row of the successor, where
/// it is looked at, is read before its main row.
pub open spec fn link_step<C: TransitionCheck>(
    c: C,
    section: Section,
    tables: Map<Seq<char>, TableModel>,
    main: Seq<char>,
    pre: Seq<char>,
    rows: nat,
    i: int,
) -> Outcome<WalkErrorView> {
    let row = i as u32;
    let next = (i + 1) as u32;
    if i + 1 < rows {
        let next_pre = if c.looks_at_next_pre() {
            tables[pre].data[i + 1]
        } else {
            Seq::empty()
        };
        let values = c.links(
            tables[main].data[i],
            tables[pre].data[i],
            tables[main].data[i + 1],
            next_pre,
        );
        let linked = after_reading(
            tables,
            main,
            next,
            emits(row_emissions(section, Some(row), values)),
        );
        if c.looks_at_next_pre() {
            after_reading(tables, pre, next, linked)
        } else {
            linked
        }
    } else {
        emits(row_emissions(section, Some(row), zeros(c.num_links())))
    }
}

/// What checking row `i` of `rows` rows does: its own residuals are emitted before its successor is
/// read.
pub open spec fn transition_step<C: TransitionCheck>(
    c: C,
    section: Section,
    tables: Map<Seq<char>, TableModel>,
    main: Seq<char>,
    pre: Seq<char>,
    rows: nat,
    i: int,
) -> Outcome<WalkErrorView> {
    let row = i as u32;
    let values = c.residuals(row, tables[main].data[i], tables[pre].data[i]);
    after_reading(
        tables,
        main,
        row,
        after_reading(
            tables,
            pre,
            row,
            followed_by(
                emits(row_emissions(section, Some(row), values)),
                link_step(c, section, tables, main, pre, rows, i),
            ),
        ),
    )
}

/// What checking each of `rows` rows does.
pub open spec fn transition_steps<C: TransitionCheck>(
    c: C,
    section: Section,
    tables: Map<Seq<char>, TableModel>,
    main: Seq<char>,
    pre: Seq<char>,
    rows: nat,
) -> Seq<Outcome<WalkErrorView>> {
    Seq::new(rows, |i: int| transition_step(c, section, tables, main, pre, rows, i))
}

/// What walking a transition constraint over all rows of its tables does.
pub open spec fn transition_outcome<C: TransitionCheck>(
    c: C,
    section: Section,
    tables: Map<Seq<char>, TableModel>,
    main: Seq<char>,
    pre: Seq<char>,
    rows: nat,
) -> Outcome<WalkErrorView> {
    in_sequence(transition_steps(c, section, tables, main, pre, rows), rows)
}

/// What is wrong with the dimensions of a main table and its preprocessed companion, if anything.
pub open spec fn pairing_error(
    tables: Map<Seq<char>, TableModel>,
    main: Seq<char>,
    main_cols: u32,
    pre: Seq<char>,
    pre_cols: u32,
) -> Option<WalkErrorView> {
    if !tables.contains_key(main) {
        Some(WalkErrorView::MissingTable(main))
    } else if tables[main].cols != main_cols {
        Some(
            WalkErrorView::ColumnCount {
                table: main,
                expected: main_cols as nat,
                got: tables[main].cols as nat,
            },
        )
    } else if !tables.contains_key(pre) {
        Some(WalkErrorView::MissingTable(pre))
    } else if tables[pre].cols != pre_cols {
        Some(
            WalkErrorView::ColumnCount {
                table: pre,
                expected: pre_cols as nat,
                got: tables[pre].cols as nat,
            },
        )
    } else if tables[main].rows != tables[pre].rows {
        Some(
            WalkErrorView::RowMismatch {
                table: main,
                rows: tables[main].rows as nat,
                other: pre,
                other_rows: tables[pre].rows as nat,
            },
        )
    } else {
        None
    }
}

/// Checks the dimensions of a main table and its preprocessed companion; gives the number of rows.
pub fn paired_rows<P: RowProvider>(
    p: &P,
    main: &str,
    main_cols: u32,
    pre: &str,
    pre_cols: u32,
) -> (r: Result<u32, WalkError>)
    ensures
        match r {
            Ok(rows) => {
                &&& pairing_error(p.tables(), main@, main_cols, pre@, pre_cols) is None
                &&& rows == p.tables()[main@].rows
            },
            Err(e) => pairing_error(p.tables(), main@, main_cols, pre@, pre_cols) == Some(e@),
        },
{
    let (rows, cols) = match p.dims(main) {
        Some(d) => d,
        None => {
            return Err(WalkError::MissingTable(main.to_owned()));
        },
    };
    if cols != main_cols {
        return Err(
            WalkError::ColumnCount {
                table: main.to_owned(),
                expected: main_cols as u64,
                got: cols as u64,
            },
        );
    }
    let (prows, pcols) = match p.dims(pre) {
        Some(d) => d,
        None => {
            return Err(WalkError::MissingTable(pre.to_owned()));
        },
    };
    if pcols != pre_cols {
        return Err(
            WalkError::ColumnCount { table: pre.to_owned(), expected: pre_cols as u64, got: pcols as u64 },
        );
    }
    if rows != prows {
        return Err(
            WalkError::RowMismatch {
                table: main.to_owned(),
                rows,
                other: pre.to_owned(),
                other_rows: prows,
            },
        );
    }
    Ok(rows)
}

/// The name of an optional table.
pub open spec fn optional_name(table: Option<&str>) -> Option<Seq<char>> {
    match table {
        Some(t) => Some(t@),
        None => None,
    }
}

/// The width of an optional table.
pub open spec fn optional_cols(tables: Map<Seq<char>, TableModel>, table: Option<&str>) -> nat {
    match table {
        Some(t) => tables[t@].cols as nat,
        None => 0,
    }
}

/// A constraint can be checked on the rows of its tables.
pub open spec fn can_check<C: RowCheck>(
    c: C,
    tables: Map<Seq<char>, TableModel>,
    main: Seq<char>,
    pre: Option<&str>,
) -> bool {
    &&& tables.contains_key(main)
    &&& table_canonical(tables, main)
    &&& pre matches Some(t) ==> tables.contains_key(t@) && table_canonical(tables, t@)
        && tables[t@].rows == tables[main].rows
    &&& c.accepts(tables[main].cols as nat, optional_cols(tables, pre))
}

/// Checks one row.
fn check_row<P: RowProvider, C: RowCheck>(
    p: &mut P,
    log: &mut ResidualLog,
    check: &C,
    section: Section,
    main: &str,
    pre: Option<&str>,
    row: u32,
) -> (r: Result<(), WalkError>)
    requires
        can_check(*check, old(p).tables(), main@, pre),
        row < old(p).tables()[main@].rows,
    ensures
        ran(
            *old(p),
            *final(p),
            old(log)@,
            final(log)@,
            r,
            row_check_step(
                *check,
                section,
                old(p).tables(),
                main@,
                optional_name(pre),
                row as int,
            ),
        ),
{
    proof {
        lemma_extend_empty(log@);
    }
    let ghost tables = p.tables();
    let main_row = match p.read_row_u32(main, row) {
        Ok(v) => v,
        Err(e) => {
            return Err(WalkError::Read(e));
        },
    };
    let pre_row = match pre {
        Some(t) => match p.read_row_u32(t, row) {
            Ok(v) => v,
            Err(e) => {
                return Err(WalkError::Read(e));
            },
        },
        None => Vec::new(),
    };
    assert(pre_row@ =~= row_of(tables, optional_name(pre), row as int));
    let values = check.check(&main_row, &pre_row);
    log.emit_row(section, Some(row), &values);
    Ok(())
}

/// Walks a row constraint over all rows of a main table and, where one is given, of its
/// preprocessed companion.
pub fn walk_rows<P: RowProvider, C: RowCheck>(
    p: &mut P,
    log: &mut ResidualLog,
    check: &C,
    section: Section,
    main: &str,
    pre: Option<&str>,
) -> (r: Result<(), WalkError>)
    requires
        can_check(*check, old(p).tables(), main@, pre),
    ensures
        ran(
            *old(p),
            *final(p),
            old(log)@,
            final(log)@,
            r,
            row_check_outcome(
                *check,
                section,
                old(p).tables(),
                main@,
                optional_name(pre),
                old(p).tables()[main@].rows as nat,
            ),
        ),
{
    let ghost tables = p.tables();
    let rows: u32 = match p.dims(main) {
        Some((n, _)) => n,
        None => 0,
    };
    let ghost steps = row_check_steps(
        *check,
        section,
        tables,
        main@,
        optional_name(pre),
        rows as nat,
    );
    let mut row: u32 = 0;
    proof {
        lemma_sequence_start(*p, log@, steps);
    }
    while row < rows
        invariant
            row <= rows,
            rows == tables[main@].rows,
            can_check(*check, tables, main@, pre),
            steps == row_check_steps(
                *check,
                section,
                tables,
                main@,
                optional_name(pre),
                rows as nat,
            ),
            p.tables() == tables,
            tables == old(p).tables(),
            ran(*old(p), *p, old(log)@, log@, Ok(()), in_sequence(steps, row as nat)),
        decreases rows - row,
    {
        let ghost p1 = *p;
        let ghost log1 = log@;
        let r = check_row(p, log, check, section, main, pre, row);
        proof {
            lemma_sequence_step(
                *old(p),
                p1,
                *p,
                old(log)@,
                log1,
                log@,
                r,
                steps,
                row as nat,
                rows as nat,
            );
        }
        if r.is_err() {
            return r;
        }
        row += 1;
    }
    Ok(())
}

/// A transition constraint can be checked on the rows of its tables.
pub open spec fn can_check_transitions<C: TransitionCheck>(
    c: C,
    tables: Map<Seq<char>, TableModel>,
    main: Seq<char>,
    pre: Seq<char>,
) -> bool {
    &&& tables.contains_key(main)
    &&& tables.contains_key(pre)
    &&& table_canonical(tables, main)
    &&& table_canonical(tables, pre)
    &&& tables[pre].rows == tables[main].rows
    &&& c.accepts(tables[main].cols as nat, tables[pre].cols as nat)
}

/// Checks what links a row to its successor.
fn check_successor<P: RowProvider, C: TransitionCheck>(
    p: &mut P,
    log: &mut ResidualLog,
    check: &C,
    section: Section,
    main: &str,
    pre: &str,
    row: u32,
    main_row: &[u32],
    pre_row: &[u32],
) -> (r: Result<(), WalkError>)
    requires
        can_check_transitions(*check, old(p).tables(), main@, pre@),
        row < old(p).tables()[main@].rows,
        main_row@ == old(p).tables()[main@].data[row as int],
        pre_row@ == old(p).tables()[pre@].data[row as int],
        main_row@.len() == old(p).tables()[main@].cols,
        pre_row@.len() == old(p).tables()[pre@].cols,
        canonical(main_row@),
        canonical(pre_row@),
    ensures
        ran(
            *old(p),
            *final(p),
            old(log)@,
            final(log)@,
            r,
            link_step(
                *check,
                section,
                old(p).tables(),
                main@,
                pre@,
                old(p).tables()[main@].rows as nat,
                row as int,
            ),
        ),
{
    proof {
        lemma_extend_empty(log@);
    }
    let rows: u32 = match p.dims(main) {
        Some((n, _)) => n,
        None => 0,
    };
    if row >= rows - 1 {
        let values = check.no_links();
        log.emit_row(section, Some(row), &values);
        return Ok(());
    }
    let mut next_pre: Vec<u32> = Vec::new();
    if check.wants_next_pre() {
        next_pre = match p.read_row_u32(pre, row + 1) {
            Ok(v) => v,
            Err(e) => {
                return Err(WalkError::Read(e));
            },
        };
    }
    let next_main = match p.read_row_u32(main, row + 1) {
        Ok(v) => v,
        Err(e) => {
            return Err(WalkError::Read(e));
        },
    };
    assert(!check.looks_at_next_pre() ==> next_pre@ =~= Seq::<u32>::empty());
    let values = check.check_links(main_row, pre_row, &next_main, &next_pre);
    log.emit_row(section, Some(row), &values);
    Ok(())
}

/// Checks one row and what links it to its successor.
fn check_transition<P: RowProvider, C: TransitionCheck>(
    p: &mut P,
    log: &mut ResidualLog,
    check: &C,
    section: Section,
    main: &str,
    pre: &str,
    row: u32,
) -> (r: Result<(), WalkError>)
    requires
        can_check_transitions(*check, old(p).tables(), main@, pre@),
        row < old(p).tables()[main@].rows,
    ensures
        ran(
            *old(p),
            *final(p),
            old(log)@,
            final(log)@,
            r,
            transition_step(
                *check,
                section,
                old(p).tables(),
                main@,
                pre@,
                old(p).tables()[main@].rows as nat,
                row as int,
            ),
        ),
{
    proof {
        lemma_extend_empty(log@);
    }
    let ghost tables = p.tables();
    let main_row = match p.read_row_u32(main, row) {
        Ok(v) => v,
        Err(e) => {
            return Err(WalkError::Read(e));
        },
    };
    let pre_row = match p.read_row_u32(pre, row) {
        Ok(v) => v,
        Err(e) => {
            return Err(WalkError::Read(e));
        },
    };
    let values = check.check(row, &main_row, &pre_row);
    log.emit_row(section, Some(row), &values);
    let ghost p1 = *p;
    let ghost log1 = log@;
    let ghost a = emits(row_emissions(section, Some(row), values@));
    let r = check_successor(p, log, check, section, main, pre, row, &main_row, &pre_row);
    proof {
        lemma_ran_then(
            *old(p),
            p1,
            *p,
            old(log)@,
            log1,
            log@,
            r,
            a,
            link_step(
                *check,
                section,
                tables,
                main@,
                pre@,
                tables[main@].rows as nat,
                row as int,
            ),
        );
    }
    r
}

/// Walks a transition constraint over all rows of a main table and its preprocessed companion.
pub fn walk_transitions<P: RowProvider, C: TransitionCheck>(
    p: &mut P,
    log: &mut ResidualLog,
    check: &C,
    section: Section,
    main: &str,
    pre: &str,
) -> (r: Result<(), WalkError>)
    requires
        can_check_transitions(*check, old(p).tables(), main@, pre@),
    ensures
        ran(
            *old(p),
            *final(p),
            old(log)@,
            final(log)@,
            r,
            transition_outcome(
                *check,
                section,
                old(p).tables(),
                main@,
                pre@,
                old(p).tables()[main@].rows as nat,
            ),
        ),
{
    let ghost tables = p.tables();
    let rows: u32 = match p.dims(main) {
        Some((n, _)) => n,
        None => 0,
    };
    let ghost steps = transition_steps(*check, section, tables, main@, pre@, rows as nat);
    let mut row: u32 = 0;
    proof {
        lemma_sequence_start(*p, log@, steps);
    }
    while row < rows
        invariant
            row <= rows,
            rows == tables[main@].rows,
            can_check_transitions(*check, tables, main@, pre@),
            steps == transition_steps(*check, section, tables, main@, pre@, rows as nat),
            p.tables() == tables,
            tables == old(p).tables(),
            ran(*old(p), *p, old(log)@, log@, Ok(()), in_sequence(steps, row as nat)),
        decreases rows - row,
    {
        let ghost p1 = *p;
        let ghost log1 = log@;
        let r = check_transition(p, log, check, section, main, pre, row);
        proof {
            lemma_sequence_step(
                *old(p),
                p1,
                *p,
                old(log)@,
                log1,
                log@,
                r,
                steps,
                row as nat,
                rows as nat,
            );
        }
        if r.is_err() {
            return r;
        }
        row += 1;
    }
    Ok(())
}

} // verus!
