//! The permutation argument as a whole: its challenges are bound to the transcript, and then its
//! tables are walked.

use vstd::prelude::*;

use crate::babybear::canonical;
use crate::chips::{flag, residual};
use crate::extension::{e_block, ext_eq, ext_from_row, BBExt};
use crate::machine::{chips_view, ChipInfo, ChipView};
use crate::matrix::{MatrixView, RowMatrix};
use crate::names::{lemma_sorted_by_name, named_view, sort_by_name, sorted_by_name};
use crate::permutation::{chip_ready, chips_outcome, walk_chips};
use crate::residuals::{
    emits, fails, followed_by, lemma_extend_concat, lemma_extend_empty, Emission, Outcome,
    ResidualLog, Section,
};
use crate::rows::{table_canonical, RowErrorView, RowProvider, TableModel};
use crate::transcript::{
    challenges, committable, derive_challenges, is_commit_height, is_committable_height,
    matrices_view, NUM_PUBLIC_VALUES,
};
use crate::walk_error::{lemma_ran_then, ran, read_error, WalkError, WalkErrorView};

verus! {

/// The first `n` rows of a table, one behind the other.
pub open spec fn rows_concat(data: Seq<Seq<u32>>, n: nat) -> Seq<u32>
    decreases n,
{
    if n == 0 {
        Seq::empty()
    } else {
        rows_concat(data, (n - 1) as nat) + data[n - 1]
    }
}

/// A table as a matrix.
pub open spec fn trace_of(t: TableModel) -> MatrixView {
    MatrixView { values: rows_concat(t.data, t.rows as nat), width: t.cols as nat }
}

/// The names of chips with their places.
pub open spec fn placed_names(chips: Seq<ChipView>) -> Seq<(Seq<char>, nat)> {
    Seq::new(chips.len(), |i: int| (chips[i].name, i as nat))
}

/// The names of chips, in the order in which their traces are committed to.
pub open spec fn trace_names(chips: Seq<ChipView>) -> Seq<Seq<char>> {
    sorted_by_name(placed_names(chips)).map_values(|x: (Seq<char>, nat)| x.0)
}

/// The main traces, in the order in which they are committed to.
pub open spec fn main_traces(tables: Map<Seq<char>, TableModel>, names: Seq<Seq<char>>) -> Seq<
    MatrixView,
> {
    names.map_values(|name: Seq<char>| trace_of(tables[name]))
}

/// Every row of a table can be read.
pub open spec fn all_readable(t: TableModel) -> bool {
    forall|i: int| 0 <= i < t.rows ==> #[trigger] t.readable[i]
}

/// What stands in the way of reading a whole table, if anything.
pub open spec fn gathering_error(
    tables: Map<Seq<char>, TableModel>,
    name: Seq<char>,
) -> Option<WalkErrorView> {
    if !tables.contains_key(name) {
        Some(WalkErrorView::MissingTable(name))
    } else if !all_readable(tables[name]) {
        Some(WalkErrorView::Read(RowErrorView::Unreadable(name)))
    } else {
        None
    }
}

/// What stands in the way of reading the first `n` tables of a list one after the other, if anything.
pub open spec fn first_gathering_error(
    tables: Map<Seq<char>, TableModel>,
    names: Seq<Seq<char>>,
    n: nat,
) -> Option<WalkErrorView>
    decreases n,
{
    if n == 0 {
        None
    } else {
        let before = first_gathering_error(tables, names, (n - 1) as nat);
        if before is Some {
            before
        } else {
            gathering_error(tables, names[n - 1])
        }
    }
}

/// The dimensions of a trace allow to commit to it.
pub open spec fn has_commit_shape(m: MatrixView) -> bool {
    m.width > 0 && is_commit_height(m.height())
}

/// The first of the traces that cannot be committed to.
pub open spec fn first_uncommittable(traces: Seq<MatrixView>, n: nat) -> Option<nat>
    decreases n,
{
    if n == 0 {
        None
    } else {
        let before = first_uncommittable(traces, (n - 1) as nat);
        if before is Some {
            before
        } else if !has_commit_shape(traces[n - 1]) {
            Some((n - 1) as nat)
        } else {
            None
        }
    }
}

/// What stands in the way of drawing the challenges, if anything.
pub open spec fn transcript_error(
    tables: Map<Seq<char>, TableModel>,
    names: Seq<Seq<char>>,
) -> Option<WalkErrorView> {
    let pv = tables["public_values"@];
    if !tables.contains_key("public_values"@) {
        Some(WalkErrorView::MissingTable("public_values"@))
    } else if pv.rows != 1 {
        Some(
            WalkErrorView::RowCount { table: "public_values"@, expected: 1, got: pv.rows as nat },
        )
    } else if let Some(e) = read_error(tables, "public_values"@, 0) {
        Some(e)
    } else if let Some(e) = first_gathering_error(tables, names, names.len()) {
        Some(e)
    } else if let Some(k) = first_uncommittable(main_traces(tables, names), names.len()) {
        Some(WalkErrorView::TraceHeight(names[k as int]))
    } else if pv.cols < NUM_PUBLIC_VALUES {
        Some(
            WalkErrorView::ColumnCount {
                table: "public_values"@,
                expected: NUM_PUBLIC_VALUES as nat,
                got: pv.cols as nat,
            },
        )
    } else {
        None
    }
}

/// What is wrong with the table of the exported challenges, if anything.
pub open spec fn challenges_error(tables: Map<Seq<char>, TableModel>) -> Option<WalkErrorView> {
    let t = tables["perm_challenges"@];
    if !tables.contains_key("perm_challenges"@) {
        Some(WalkErrorView::MissingTable("perm_challenges"@))
    } else if t.rows != 1 {
        Some(
            WalkErrorView::RowCount { table: "perm_challenges"@, expected: 1, got: t.rows as nat },
        )
    } else if t.cols != 8 {
        Some(
            WalkErrorView::ColumnCount {
                table: "perm_challenges"@,
                expected: 8,
                got: t.cols as nat,
            },
        )
    } else {
        read_error(tables, "perm_challenges"@, 0)
    }
}

/// The residuals that bind the exported challenges to those of the transcript.
pub open spec fn binding_trace(exported: Seq<u32>, alpha: BBExt, beta: BBExt) -> Seq<Emission> {
    seq![
        Emission {
            section: Section::Permutation,
            row: None,
            value: flag(e_block(exported, 0) == alpha),
        },
        Emission {
            section: Section::Permutation,
            row: None,
            value: flag(e_block(exported, 4) == beta),
        },
    ]
}

/// What walking the permutation argument does, for given challenges.
pub open spec fn argument_outcome(
    tables: Map<Seq<char>, TableModel>,
    chips: Seq<ChipView>,
    alpha: BBExt,
    beta: BBExt,
) -> Outcome<WalkErrorView> {
    match challenges_error(tables) {
        Some(e) => fails(e),
        None => followed_by(
            emits(binding_trace(tables["perm_challenges"@].data[0], alpha, beta)),
            chips_outcome(tables, chips, alpha, beta),
        ),
    }
}

/// What walking the permutation argument does, with the challenges of the transcript.
pub open spec fn permutation_outcome(
    tables: Map<Seq<char>, TableModel>,
    chips: Seq<ChipView>,
) -> Outcome<WalkErrorView> {
    let names = trace_names(chips);
    match transcript_error(tables, names) {
        Some(e) => fails(e),
        None => {
            let (alpha, beta) = challenges(
                tables["public_values"@].data[0],
                main_traces(tables, names),
            );
            argument_outcome(tables, chips, alpha, beta)
        },
    }
}

/// Walks the permutation argument with given challenges: compares them with the exported ones, and
/// checks the permutation tables of all chips.
pub fn walk_argument<P: RowProvider>(
    p: &mut P,
    log: &mut ResidualLog,
    chips: &[ChipInfo],
    alpha: BBExt,
    beta: BBExt,
) -> (r: Result<(), WalkError>)
    requires
        table_canonical(old(p).tables(), "perm_challenges"@),
        forall|i: int|
            0 <= i < chips@.len() ==> chip_ready(old(p).tables(), (#[trigger] chips@[i])@),
        alpha.wf(),
        beta.wf(),
    ensures
        ran(
            *old(p),
            *final(p),
            old(log)@,
            final(log)@,
            r,
            argument_outcome(old(p).tables(), chips_view(chips@), alpha, beta),
        ),
{
    let ghost tables = p.tables();
    proof {
        lemma_extend_empty(log@);
    }
    let (rows, cols) = match p.dims("perm_challenges") {
        Some(d) => d,
        None => {
            return Err(WalkError::MissingTable("perm_challenges".to_owned()));
        },
    };
    if rows != 1 {
        return Err(
            WalkError::RowCount {
                table: "perm_challenges".to_owned(),
                expected: 1,
                got: rows as u64,
            },
        );
    }
    if cols != 8 {
        return Err(
            WalkError::ColumnCount {
                table: "perm_challenges".to_owned(),
                expected: 8,
                got: cols as u64,
            },
        );
    }
    let exported = match p.read_row_u32("perm_challenges", 0) {
        Ok(v) => v,
        Err(e) => {
            return Err(WalkError::Read(e));
        },
    };
    let ghost p1 = *p;
    let ghost bound = binding_trace(exported@, alpha, beta);
    let same_alpha = ext_eq(&ext_from_row(&exported, 0), &alpha);
    let same_beta = ext_eq(&ext_from_row(&exported, 4), &beta);
    log.emit(Section::Permutation, None, residual(same_alpha));
    log.emit(Section::Permutation, None, residual(same_beta));
    let ghost log1 = log@;
    proof {
        let a = seq![bound[0]];
        let b = seq![bound[1]];
        lemma_extend_concat(old(log)@, a, b);
        assert(a + b =~= bound);
        assert(ran(*old(p), p1, old(log)@, log1, Ok(()), emits(bound)));
    }
    let r = walk_chips(p, log, chips, alpha, beta);
    proof {
        lemma_ran_then(
            *old(p),
            p1,
            *p,
            old(log)@,
            log1,
            log@,
            r,
            emits(bound),
            chips_outcome(tables, chips_view(chips@), alpha, beta),
        );
    }
    r
}

/// Reads a whole table.
fn collect_trace<P: RowProvider>(p: &mut P, name: &str) -> (r: Result<RowMatrix, WalkError>)
    requires
        table_canonical(old(p).tables(), name@),
    ensures
        final(p).tables() == old(p).tables(),
        match r {
            Ok(m) => {
                &&& gathering_error(old(p).tables(), name@) is None
                &&& m@ == trace_of(old(p).tables()[name@])
                &&& m@.values.len() == old(p).tables()[name@].rows * old(p).tables()[name@].cols
                &&& canonical(m@.values)
            },
            Err(e) => gathering_error(old(p).tables(), name@) == Some(e@),
        },
{
    let (rows, cols) = match p.dims(name) {
        Some(d) => d,
        None => {
            return Err(WalkError::MissingTable(name.to_owned()));
        },
    };
    let ghost t = p.tables()[name@];
    let mut values: Vec<u32> = Vec::new();
    let mut row: u32 = 0;
    while row < rows
        invariant
            row <= rows,
            p.tables() == old(p).tables(),
            p.tables().contains_key(name@),
            t == p.tables()[name@],
            t.rows == rows,
            t.cols == cols,
            table_canonical(p.tables(), name@),
            values@ == rows_concat(t.data, row as nat),
            values@.len() == row * cols,
            canonical(values@),
            forall|i: int| 0 <= i < row ==> #[trigger] t.readable[i],
        decreases rows - row,
    {
        let mut next = match p.read_row_u32(name, row) {
            Ok(v) => v,
            Err(e) => {
                return Err(WalkError::Read(e));
            },
        };
        assert((row + 1) * cols == row * cols + cols) by (nonlinear_arith);
        values.append(&mut next);
        row += 1;
    }
    Ok(RowMatrix { values, width: cols as usize })
}

/// A table that was read whole has the dimensions of the table.
proof fn lemma_trace_shape(t: TableModel, m: MatrixView)
    requires
        m == trace_of(t),
        m.values.len() == t.rows * t.cols,
    ensures
        t.cols > 0 ==> m.height() == t.rows,
        t.cols > 0 ==> m.values.len() == m.width * m.height(),
{
    if t.cols > 0 {
        let rows = t.rows as int;
        let cols = t.cols as int;
        assert((rows * cols) / cols == rows) by (nonlinear_arith)
            requires
                cols > 0,
        ;
        assert(rows * cols == cols * rows) by (nonlinear_arith);
    }
}

/// An error among the first tables is the error of all of them.
proof fn lemma_first_gathering_error(
    tables: Map<Seq<char>, TableModel>,
    names: Seq<Seq<char>>,
    i: nat,
    n: nat,
)
    requires
        i <= n,
    ensures
        first_gathering_error(tables, names, i) is Some ==> first_gathering_error(tables, names, n)
            == first_gathering_error(tables, names, i),
    decreases n - i,
{
    if i < n {
        lemma_first_gathering_error(tables, names, i, (n - 1) as nat);
    }
}

/// Reads the tables of the given names, in order.
fn collect_traces<P: RowProvider>(p: &mut P, names: &Vec<(String, usize)>) -> (r: Result<
    Vec<RowMatrix>,
    WalkError,
>)
    requires
        forall|i: int|
            0 <= i < names@.len() ==> table_canonical(old(p).tables(), (#[trigger] names@[i]).0@),
    ensures
        final(p).tables() == old(p).tables(),
        ({
            let tables = old(p).tables();
            let list = named_view(names@).map_values(|x: (Seq<char>, nat)| x.0);
            match r {
                Ok(m) => {
                    &&& first_gathering_error(tables, list, list.len()) is None
                    &&& matrices_view(m@) == main_traces(tables, list)
                    &&& forall|i: int|
                        0 <= i < list.len() ==> {
                            &&& (#[trigger] m@[i])@.values.len() == tables[list[i]].rows
                                * tables[list[i]].cols
                            &&& canonical(m@[i]@.values)
                        }
                },
                Err(e) => first_gathering_error(tables, list, list.len()) == Some(e@),
            }
        }),
{
    let ghost tables = p.tables();
    let ghost list = named_view(names@).map_values(|x: (Seq<char>, nat)| x.0);
    let mut r: Vec<RowMatrix> = Vec::new();
    let mut i: usize = 0;
    while i < names.len()
        invariant
            i <= names@.len(),
            r@.len() == i,
            list == named_view(names@).map_values(|x: (Seq<char>, nat)| x.0),
            p.tables() == tables,
            tables == old(p).tables(),
            forall|i: int|
                0 <= i < names@.len() ==> table_canonical(tables, (#[trigger] names@[i]).0@),
            first_gathering_error(tables, list, i as nat) is None,
            forall|k: int|
                0 <= k < i ==> {
                    &&& (#[trigger] r@[k])@ == trace_of(tables[list[k]])
                    &&& r@[k]@.values.len() == tables[list[k]].rows * tables[list[k]].cols
                    &&& canonical(r@[k]@.values)
                },
        decreases names@.len() - i,
    {
        assert(list[i as int] == names@[i as int].0@);
        proof {
            lemma_first_gathering_error(tables, list, (i + 1) as nat, list.len());
        }
        let m = match collect_trace(p, names[i].0.as_str()) {
            Ok(m) => m,
            Err(e) => {
                return Err(e);
            },
        };
        r.push(m);
        i += 1;
    }
    assert(matrices_view(r@) =~= main_traces(tables, list));
    Ok(r)
}

/// Finds the first trace that cannot be committed to.
fn find_uncommittable(traces: &[RowMatrix]) -> (r: Option<usize>)
    ensures
        match r {
            Some(k) => k < traces@.len() && first_uncommittable(
                matrices_view(traces@),
                traces@.len(),
            ) == Some(k as nat),
            None => {
                &&& first_uncommittable(matrices_view(traces@), traces@.len()) is None
                &&& forall|i: int|
                    0 <= i < traces@.len() ==> has_commit_shape((#[trigger] traces@[i])@)
            },
        },
{
    let ghost view = matrices_view(traces@);
    let mut k: usize = 0;
    while k < traces.len()
        invariant
            k <= traces@.len(),
            view == matrices_view(traces@),
            first_uncommittable(view, k as nat) is None,
            forall|i: int| 0 <= i < k ==> has_commit_shape((#[trigger] traces@[i])@),
        decreases traces@.len() - k,
    {
        assert(view[k as int] == traces@[k as int]@);
        if traces[k].width == 0 || !is_committable_height(traces[k].height()) {
            proof {
                lemma_first_uncommittable(view, (k + 1) as nat, view.len());
            }
            return Some(k);
        }
        k += 1;
    }
    None
}

/// A trace that is found among the first traces is the first that is found.
proof fn lemma_first_uncommittable(traces: Seq<MatrixView>, i: nat, n: nat)
    requires
        i <= n,
    ensures
        first_uncommittable(traces, i) is Some ==> first_uncommittable(traces, n)
            == first_uncommittable(traces, i),
    decreases n - i,
{
    if i < n {
        lemma_first_uncommittable(traces, i, (n - 1) as nat);
    }
}

/// Walks the permutation argument: draws the challenges from the transcript of the public values and
/// the main traces, and then checks the tables against them.
pub fn walk_permutation<P: RowProvider>(
    p: &mut P,
    log: &mut ResidualLog,
    chips: &[ChipInfo],
) -> (r: Result<(), WalkError>)
    requires
        chips@.len() > 0,
        table_canonical(old(p).tables(), "public_values"@),
        table_canonical(old(p).tables(), "perm_challenges"@),
        forall|i: int|
            0 <= i < chips@.len() ==> chip_ready(old(p).tables(), (#[trigger] chips@[i])@),
    ensures
        ran(
            *old(p),
            *final(p),
            old(log)@,
            final(log)@,
            r,
            permutation_outcome(old(p).tables(), chips_view(chips@)),
        ),
{
    let ghost tables = p.tables();
    let ghost view = chips_view(chips@);
    let ghost list = trace_names(view);
    proof {
        lemma_extend_empty(log@);
    }
    let (pv_rows, pv_cols) = match p.dims("public_values") {
        Some(d) => d,
        None => {
            return Err(WalkError::MissingTable("public_values".to_owned()));
        },
    };
    if pv_rows != 1 {
        return Err(
            WalkError::RowCount {
                table: "public_values".to_owned(),
                expected: 1,
                got: pv_rows as u64,
            },
        );
    }
    let public_values = match p.read_row_u32("public_values", 0) {
        Ok(v) => v,
        Err(e) => {
            return Err(WalkError::Read(e));
        },
    };
    let mut placed: Vec<(String, usize)> = Vec::new();
    let mut i: usize = 0;
    while i < chips.len()
        invariant
            i <= chips@.len(),
            placed@.len() == i,
            view == chips_view(chips@),
            forall|k: int|
                0 <= k < i ==> (#[trigger] placed@[k]).0@ == view[k].name && placed@[k].1 == k,
        decreases chips@.len() - i,
    {
        assert(view[i as int] == chips@[i as int]@);
        placed.push((chips[i].name.clone(), i));
        i += 1;
    }
    assert(named_view(placed@) =~= placed_names(view));
    let names = sort_by_name(placed);
    proof {
        lemma_names_are_chips(view);
        assert(named_view(names@).map_values(|x: (Seq<char>, nat)| x.0) == list);
        assert forall|k: int| 0 <= k < names@.len() implies table_canonical(
            tables,
            (#[trigger] names@[k]).0@,
        ) by {
            assert(list[k] == names@[k].0@);
            let c = choose|c: int| 0 <= c < view.len() && view[c].name == list[k];
            assert(view[c] == chips@[c]@);
        }
    }
    let traces = match collect_traces(p, &names) {
        Ok(m) => m,
        Err(e) => {
            return Err(e);
        },
    };
    proof {
        assert(matrices_view(traces@).len() == main_traces(tables, list).len());
    }
    if let Some(k) = find_uncommittable(&traces) {
        assert(list[k as int] == names@[k as int].0@);
        return Err(WalkError::TraceHeight(names[k].0.clone()));
    }
    proof {
        assert forall|i: int| 0 <= i < traces@.len() implies committable((#[trigger] traces@[i])@) by {
            assert(matrices_view(traces@)[i] == main_traces(tables, list)[i]);
            lemma_trace_shape(tables[list[i]], traces@[i]@);
        }
    }
    if (pv_cols as usize) < NUM_PUBLIC_VALUES {
        return Err(
            WalkError::ColumnCount {
                table: "public_values".to_owned(),
                expected: NUM_PUBLIC_VALUES as u64,
                got: pv_cols as u64,
            },
        );
    }
    let (alpha, beta) = derive_challenges(&public_values, &traces);
    walk_argument(p, log, chips, alpha, beta)
}

/// The sorted names are the names of the chips.
proof fn lemma_names_are_chips(chips: Seq<ChipView>)
    ensures
        trace_names(chips).len() == chips.len(),
        forall|k: int|
            0 <= k < chips.len() ==> exists|c: int|
                0 <= c < chips.len() && chips[c].name == #[trigger] trace_names(chips)[k],
{
    broadcast use vstd::seq_lib::group_to_multiset_ensures;

    let placed = placed_names(chips);
    let sorted = sorted_by_name(placed);
    lemma_sorted_by_name(placed);
    assert forall|k: int| 0 <= k < chips.len() implies exists|c: int|
        0 <= c < chips.len() && chips[c].name == #[trigger] trace_names(chips)[k] by {
        assert(sorted.contains(sorted[k]));
        assert(sorted.to_multiset().count(sorted[k]) > 0);
        assert(placed.to_multiset().count(sorted[k]) > 0);
        assert(placed.contains(sorted[k]));
        let c = choose|c: int| 0 <= c < placed.len() && placed[c] == sorted[k];
        assert(chips[c].name == trace_names(chips)[k]);
    }
}

} // verus!
