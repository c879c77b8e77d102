//! The errors of a walk tell the truth about the tables.

use vstd::arithmetic::power2::{lemma2_to64, pow2};
use vstd::prelude::*;

use crate::babybear::BABYBEAR_P;
use crate::binding::{
    all_readable, argument_outcome, first_gathering_error, first_uncommittable, has_commit_shape,
    main_traces, permutation_outcome, trace_names, trace_of, transcript_error,
};
use crate::chips::base_alu::base_alu_outcome;
use crate::chips::batch_fri::batch_fri_outcome;
use crate::chips::exp_reverse_bits::exp_reverse_bits_outcome;
use crate::chips::ext_alu::{ext_alu_error, ext_alu_outcome, ExtAlu};
use crate::chips::poseidon2::{poseidon2_outcome, poseidon2_steps, round_constants_model};
use crate::chips::public_values::public_values_outcome;
use crate::chips::select::{select_outcome, SelectMain, SelectPre};
use crate::constraints::{
    link_step, pairing_error, row_check_outcome, row_check_step, row_check_steps, transition_outcome,
    transition_step, transition_steps, RowCheck, TransitionCheck,
};
use crate::extension::BBExt;
use crate::machine::{shrink_chips_model, ChipView, ColumnView};
use crate::meaning::exports::{is_regular, lemma_commit_shape};
use crate::meaning::walks::is_pair;
use crate::permutation::{
    chip_fits, chip_outcome, chip_steps, column_fits, interaction_fits, interactions_error,
    permutation_error, permutation_step, permutation_steps,
};
use crate::residuals::{in_sequence, Outcome, Section};
use crate::rows::{RowErrorView, TableModel};
use crate::transcript::is_commit_height;
use crate::walk::{local_steps, memory_outcome, shrink_outcome};
use crate::walk_error::{read_error, WalkErrorView};

verus! {

/// A virtual column reads cells that its rows have, and its numbers are in the field.
pub open spec fn column_exists(c: ColumnView, pre_cols: int, main_cols: int) -> bool {
    &&& c.constant < 2013265921
    &&& forall|i: int|
        0 <= i < c.weights.len() ==> {
            &&& (#[trigger] c.weights[i]).2 < 2013265921
            &&& c.weights[i].0 ==> c.weights[i].1 < main_cols
            &&& !c.weights[i].0 ==> c.weights[i].1 < pre_cols
        }
}

/// The interactions of a chip read cells that its rows have, and an entry sums up some of them.
pub open spec fn columns_exist(chip: ChipView, pre_cols: int, main_cols: int) -> bool {
    &&& chip.batch_size > 0
    &&& forall|i: int, k: int|
        0 <= i < chip.interactions.len() && 0 <= k < chip.interactions[i].values.len() ==> column_exists(
            #[trigger] chip.interactions[i].values[k],
            pre_cols,
            main_cols,
        )
    &&& forall|i: int|
        0 <= i < chip.interactions.len() ==> {
            &&& (#[trigger] chip.interactions[i]).argument_index < 2013265921
            &&& column_exists(chip.interactions[i].multiplicity, pre_cols, main_cols)
        }
}

proof fn lemma_columns_exist(chip: ChipView, pre_cols: nat, main_cols: nat)
    requires
        columns_exist(chip, pre_cols as int, main_cols as int),
    ensures
        chip_fits(chip, pre_cols, main_cols),
{
    assert forall|c: ColumnView| #[trigger]
        column_exists(c, pre_cols as int, main_cols as int) implies column_fits(
        c,
        pre_cols,
        main_cols,
    ) by {
        assert forall|i: int| 0 <= i < c.weights.len() implies {
            let (in_main, k, weight) = #[trigger] c.weights[i];
            &&& weight < BABYBEAR_P
            &&& k < (if in_main {
                main_cols
            } else {
                pre_cols
            })
        } by {
            assert(c.weights[i].2 < 2013265921);
        }
    }
    assert forall|i: int| 0 <= i < chip.interactions.len() implies interaction_fits(
        #[trigger] chip.interactions[i],
        pre_cols,
        main_cols,
    ) by {
        let x = chip.interactions[i];
        assert(x.argument_index < 2013265921);
        assert(column_exists(x.multiplicity, pre_cols as int, main_cols as int));
        assert forall|k: int| 0 <= k < x.values.len() implies column_fits(
            #[trigger] x.values[k],
            pre_cols,
            main_cols,
        ) by {
            assert(column_exists(chip.interactions[i].values[k], pre_cols as int, main_cols as int));
        }
    }
}

/// What an error says holds of the tables and the chips: a table that is said to be missing is missing,
/// numbers that are said to be found are found and differ from what was expected, and a row that is said
/// not to be readable is not.
pub open spec fn tells_truth(
    tables: Map<Seq<char>, TableModel>,
    chips: Seq<ChipView>,
    e: WalkErrorView,
) -> bool {
    match e {
        WalkErrorView::MissingTable(t) => !tables.contains_key(t),
        WalkErrorView::ColumnCount { table, expected, got } => {
            &&& tables.contains_key(table)
            &&& tables[table].cols == got
            &&& got != expected
        },
        WalkErrorView::ColumnGranularity { table, factor, got } => {
            &&& tables.contains_key(table)
            &&& tables[table].cols == got
            &&& factor > 0
            &&& got % factor != 0
        },
        WalkErrorView::RowCount { table, expected, got } => {
            &&& tables.contains_key(table)
            &&& tables[table].rows == got
            &&& got != expected
        },
        WalkErrorView::RowMismatch { table, rows, other, other_rows } => {
            &&& tables.contains_key(table)
            &&& tables.contains_key(other)
            &&& tables[table].rows == rows
            &&& tables[other].rows == other_rows
            &&& rows != other_rows
        },
        WalkErrorView::GlobalScope(name) => exists|c: int|
            0 <= c < chips.len() && (#[trigger] chips[c]).name == name && !chips[c].commits_locally,
        WalkErrorView::BatchSize { table, expected, got } => {
            &&& tables.contains_key(table)
            &&& tables[table].data[0][0] == got
            &&& got != expected
            &&& exists|c: int| 0 <= c < chips.len() && (#[trigger] chips[c]).batch_size == expected
        },
        WalkErrorView::PermutationWidth { table, expected, got } => {
            &&& tables.contains_key(table)
            &&& tables[table].cols == 4 * got
            &&& got != expected
            &&& exists|c: int|
                0 <= c < chips.len() && (#[trigger] chips[c]).permutation_width == expected
        },
        WalkErrorView::EntryCount { table, expected, got } => {
            &&& tables.contains_key(table)
            &&& tables[table].cols == 4 * (got + 1)
            &&& got != expected
        },
        WalkErrorView::ChipColumns(name) => exists|c: int|
            0 <= c < chips.len() && (#[trigger] chips[c]).name == name && !columns_exist(
                chips[c],
                if tables.contains_key("pre/"@ + name) {
                    tables["pre/"@ + name].cols as int
                } else {
                    0
                },
                tables[name].cols as int,
            ),
        WalkErrorView::TraceHeight(name) => {
            &&& exists|c: int| 0 <= c < chips.len() && (#[trigger] chips[c]).name == name
            &&& is_regular(tables[name]) ==> tables[name].cols == 0 || !is_commit_height(
                tables[name].rows as nat,
            )
        },
        WalkErrorView::Read(RowErrorView::Unreadable(t)) => {
            &&& tables.contains_key(t)
            &&& exists|i: int| 0 <= i < tables[t].rows && !#[trigger] tables[t].readable[i]
        },
        WalkErrorView::Read(_) => false,
    }
}

/// An outcome that fails tells the truth.
pub open spec fn honest(
    tables: Map<Seq<char>, TableModel>,
    chips: Seq<ChipView>,
    o: Outcome<WalkErrorView>,
) -> bool {
    o.error matches Some(e) ==> tells_truth(tables, chips, e)
}

proof fn lemma_honest_steps(
    tables: Map<Seq<char>, TableModel>,
    chips: Seq<ChipView>,
    steps: Seq<Outcome<WalkErrorView>>,
    n: nat,
)
    requires
        n <= steps.len(),
        forall|i: int| 0 <= i < steps.len() ==> honest(tables, chips, #[trigger] steps[i]),
    ensures
        honest(tables, chips, in_sequence(steps, n)),
    decreases n,
{
    if n > 0 {
        lemma_honest_steps(tables, chips, steps, (n - 1) as nat);
        assert(honest(tables, chips, steps[n - 1]));
    }
}

/// A read of a row that the table has.
proof fn lemma_honest_read(
    tables: Map<Seq<char>, TableModel>,
    chips: Seq<ChipView>,
    t: Seq<char>,
    row: u32,
)
    requires
        tables.contains_key(t),
        row < tables[t].rows,
    ensures
        read_error(tables, t, row) matches Some(e) ==> tells_truth(tables, chips, e),
{
    if !tables[t].readable[row as int] {
        assert(0 <= row < tables[t].rows && !tables[t].readable[row as int]);
    }
}

proof fn lemma_honest_rows<C: RowCheck>(
    tables: Map<Seq<char>, TableModel>,
    chips: Seq<ChipView>,
    c: C,
    section: Section,
    main: Seq<char>,
    pre: Option<Seq<char>>,
    n: nat,
)
    requires
        tables.contains_key(main),
        tables[main].rows == n,
        pre matches Some(t) ==> tables.contains_key(t) && tables[t].rows == n,
    ensures
        honest(tables, chips, row_check_outcome(c, section, tables, main, pre, n)),
{
    let steps = row_check_steps(c, section, tables, main, pre, n);
    assert forall|i: int| 0 <= i < steps.len() implies honest(tables, chips, #[trigger] steps[i]) by {
        lemma_honest_read(tables, chips, main, i as u32);
        if let Some(t) = pre {
            lemma_honest_read(tables, chips, t, i as u32);
        }
        assert(steps[i] == row_check_step(c, section, tables, main, pre, i));
    }
    lemma_honest_steps(tables, chips, steps, n);
}

proof fn lemma_honest_transitions<C: TransitionCheck>(
    tables: Map<Seq<char>, TableModel>,
    chips: Seq<ChipView>,
    c: C,
    section: Section,
    main: Seq<char>,
    pre: Seq<char>,
    n: nat,
)
    requires
        tables.contains_key(main),
        tables[main].rows == n,
        tables.contains_key(pre),
        tables[pre].rows == n,
    ensures
        honest(tables, chips, transition_outcome(c, section, tables, main, pre, n)),
{
    let steps = transition_steps(c, section, tables, main, pre, n);
    assert forall|i: int| 0 <= i < steps.len() implies honest(tables, chips, #[trigger] steps[i]) by {
        lemma_honest_read(tables, chips, main, i as u32);
        lemma_honest_read(tables, chips, pre, i as u32);
        if i + 1 < n {
            lemma_honest_read(tables, chips, main, (i + 1) as u32);
            lemma_honest_read(tables, chips, pre, (i + 1) as u32);
        }
        assert(honest(tables, chips, link_step(c, section, tables, main, pre, n, i)));
        assert(steps[i] == transition_step(c, section, tables, main, pre, n, i));
    }
    lemma_honest_steps(tables, chips, steps, n);
}

proof fn lemma_honest_pairing(
    tables: Map<Seq<char>, TableModel>,
    chips: Seq<ChipView>,
    main: Seq<char>,
    main_cols: u32,
    pre: Seq<char>,
    pre_cols: u32,
)
    ensures
        pairing_error(tables, main, main_cols, pre, pre_cols) matches Some(e) ==> tells_truth(
            tables,
            chips,
            e,
        ),
        pairing_error(tables, main, main_cols, pre, pre_cols) is None ==> tables.contains_key(main)
            && tables.contains_key(pre) && tables[main].rows == tables[pre].rows,
{
}

proof fn lemma_honest_local(tables: Map<Seq<char>, TableModel>, chips: Seq<ChipView>)
    ensures
        honest(tables, chips, select_outcome(tables)),
        honest(tables, chips, public_values_outcome(tables)),
        honest(tables, chips, base_alu_outcome(tables)),
        honest(tables, chips, ext_alu_outcome(tables)),
{
    lemma_honest_pairing(tables, chips, "Select"@, 5, "pre/Select"@, 8);
    lemma_honest_pairing(tables, chips, "PublicValues"@, 1, "pre/PublicValues"@, 10);
    lemma_honest_pairing(tables, chips, "BaseAlu"@, 12, "pre/BaseAlu"@, 32);
    if pairing_error(tables, "Select"@, 5, "pre/Select"@, 8) is None {
        let n = tables["Select"@].rows as nat;
        lemma_honest_rows(tables, chips, SelectMain, Section::Select, "Select"@, None, n);
        lemma_honest_rows(tables, chips, SelectPre, Section::Select, "pre/Select"@, None, n);
    }
    if pairing_error(tables, "PublicValues"@, 1, "pre/PublicValues"@, 10) is None {
        lemma_honest_rows(
            tables,
            chips,
            crate::chips::public_values::PublicValues,
            Section::PublicValues,
            "PublicValues"@,
            Some("pre/PublicValues"@),
            tables["PublicValues"@].rows as nat,
        );
    }
    if pairing_error(tables, "BaseAlu"@, 12, "pre/BaseAlu"@, 32) is None {
        lemma_honest_rows(
            tables,
            chips,
            crate::chips::base_alu::BaseAlu,
            Section::BaseAlu,
            "BaseAlu"@,
            Some("pre/BaseAlu"@),
            tables["BaseAlu"@].rows as nat,
        );
    }
    if ext_alu_error(tables) is None {
        lemma_honest_rows(
            tables,
            chips,
            ExtAlu { lanes: tables["pre/ExtAlu"@].cols / 8 },
            Section::ExtAlu,
            "ExtAlu"@,
            Some("pre/ExtAlu"@),
            tables["ExtAlu"@].rows as nat,
        );
    }
}

proof fn lemma_honest_rest(tables: Map<Seq<char>, TableModel>, chips: Seq<ChipView>)
    ensures
        honest(tables, chips, batch_fri_outcome(tables)),
        honest(tables, chips, memory_outcome(tables)),
        honest(tables, chips, exp_reverse_bits_outcome(tables)),
        honest(tables, chips, poseidon2_outcome(tables, round_constants_model())),
{
    let (exp, pre_exp) = ("ExpReverseBitsLen"@, "pre/ExpReverseBitsLen"@);
    let (hash, pre_hash) = ("Poseidon2WideDeg3"@, "pre/Poseidon2WideDeg3"@);
    lemma_honest_pairing(tables, chips, "BatchFRI"@, 13, "pre/BatchFRI"@, 6);
    lemma_honest_pairing(tables, chips, exp, 7, pre_exp, 10);
    lemma_honest_pairing(tables, chips, hash, 313, pre_hash, 49);
    if pairing_error(tables, "BatchFRI"@, 13, "pre/BatchFRI"@, 6) is None {
        lemma_honest_transitions(
            tables,
            chips,
            crate::chips::batch_fri::BatchFri,
            Section::BatchFri,
            "BatchFRI"@,
            "pre/BatchFRI"@,
            tables["BatchFRI"@].rows as nat,
        );
    }
    if pairing_error(tables, exp, 7, pre_exp, 10) is None {
        lemma_honest_transitions(
            tables,
            chips,
            crate::chips::exp_reverse_bits::ExpReverseBits,
            Section::ExpReverseBitsLen,
            exp,
            pre_exp,
            tables[exp].rows as nat,
        );
    }
    if pairing_error(tables, hash, 313, pre_hash, 49) is None {
        let steps = poseidon2_steps(tables, round_constants_model());
        assert forall|i: int| 0 <= i < steps.len() implies honest(
            tables,
            chips,
            #[trigger] steps[i],
        ) by {
            lemma_honest_read(tables, chips, hash, i as u32);
        }
        lemma_honest_steps(tables, chips, steps, tables[hash].rows as nat);
    }
}

proof fn lemma_honest_chip(
    tables: Map<Seq<char>, TableModel>,
    chips: Seq<ChipView>,
    c: int,
    alpha: BBExt,
    beta: BBExt,
)
    requires
        0 <= c < chips.len(),
    ensures
        honest(tables, chips, chip_outcome(tables, chips[c], alpha, beta)),
{
    let chip = chips[c];
    if tables.contains_key(chip.name) && chip.permutation_width > 0 {
        let meta = crate::permutation::meta_name(chip.name);
        if tables.contains_key(meta) && tables[meta].rows == 1 {
            lemma_honest_read(tables, chips, meta, 0);
        }
        if permutation_error(tables, chip) is None {
            let steps = permutation_steps(tables, chip, alpha, beta);
            assert forall|i: int| 0 <= i < steps.len() implies honest(
                tables,
                chips,
                #[trigger] steps[i],
            ) by {
                lemma_honest_read(tables, chips, chip.name, i as u32);
                lemma_honest_read(
                    tables,
                    chips,
                    crate::permutation::perm_name(chip.name),
                    i as u32,
                );
                if tables.contains_key(crate::permutation::pre_name(chip.name)) {
                    lemma_honest_read(
                        tables,
                        chips,
                        crate::permutation::pre_name(chip.name),
                        i as u32,
                    );
                }
                let pre_cols = crate::permutation::pre_cols(tables, chip.name);
                if columns_exist(chip, pre_cols as int, tables[chip.name].cols as int) {
                    lemma_columns_exist(chip, pre_cols, tables[chip.name].cols as nat);
                }
                assert(interactions_error(tables, chip) matches Some(e) ==> tells_truth(
                    tables,
                    chips,
                    e,
                ));
                assert(steps[i] == permutation_step(tables, chip, alpha, beta, i));
            }
            lemma_honest_steps(tables, chips, steps, tables[chip.name].rows as nat);
        }
    }
}

/// The chip of a trace.
proof fn lemma_name_of_chip(chips: Seq<ChipView>, k: int)
    requires
        0 <= k < trace_names(chips).len(),
    ensures
        exists|c: int| 0 <= c < chips.len() && (#[trigger] chips[c]).name == trace_names(chips)[k],
{
    broadcast use vstd::seq_lib::group_to_multiset_ensures;

    let items = crate::binding::placed_names(chips);
    crate::names::lemma_sorted_by_name(items);
    let sorted = crate::names::sorted_by_name(items);
    assert(sorted.contains(sorted[k]));
    assert(sorted.to_multiset().count(sorted[k]) > 0);
    assert(items.contains(sorted[k]));
    let c = choose|c: int| 0 <= c < items.len() && items[c] == sorted[k];
    assert(chips[c].name == trace_names(chips)[k]);
}

proof fn lemma_honest_gathering(
    tables: Map<Seq<char>, TableModel>,
    chips: Seq<ChipView>,
    names: Seq<Seq<char>>,
    n: nat,
)
    ensures
        first_gathering_error(tables, names, n) matches Some(e) ==> tells_truth(tables, chips, e),
    decreases n,
{
    if n > 0 {
        lemma_honest_gathering(tables, chips, names, (n - 1) as nat);
        let t = names[n - 1];
        if tables.contains_key(t) && !all_readable(tables[t]) {
            let i = choose|i: int| 0 <= i < tables[t].rows && !#[trigger] tables[t].readable[i];
            assert(!tables[t].readable[i]);
        }
    }
}

proof fn lemma_uncommittable_place(
    traces: Seq<crate::matrix::MatrixView>,
    n: nat,
)
    ensures
        first_uncommittable(traces, n) matches Some(k) ==> k < n && !has_commit_shape(traces[k as int]),
    decreases n,
{
    if n > 0 {
        lemma_uncommittable_place(traces, (n - 1) as nat);
    }
}

proof fn lemma_honest_permutation(tables: Map<Seq<char>, TableModel>, chips: Seq<ChipView>)
    ensures
        honest(tables, chips, permutation_outcome(tables, chips)),
{
    let names = trace_names(chips);
    lemma_honest_gathering(tables, chips, names, names.len());
    lemma_uncommittable_place(main_traces(tables, names), names.len());
    if tables.contains_key("public_values"@) && tables["public_values"@].rows == 1 {
        lemma_honest_read(tables, chips, "public_values"@, 0);
    }
    if let Some(k) = first_uncommittable(main_traces(tables, names), names.len()) {
        lemma_name_of_chip(chips, k as int);
        assert(main_traces(tables, names)[k as int] == trace_of(tables[names[k as int]]));
        if is_regular(tables[names[k as int]]) {
            lemma_commit_shape(tables[names[k as int]]);
        }
    }
    if transcript_error(tables, names) is None {
        let (alpha, beta) = crate::transcript::challenges(
            tables["public_values"@].data[0],
            main_traces(tables, names),
        );
        if tables.contains_key("perm_challenges"@) && tables["perm_challenges"@].rows == 1 {
            lemma_honest_read(tables, chips, "perm_challenges"@, 0);
        }
        let steps = chip_steps(tables, chips, alpha, beta);
        assert forall|i: int| 0 <= i < steps.len() implies honest(
            tables,
            chips,
            #[trigger] steps[i],
        ) by {
            lemma_honest_chip(tables, chips, i, alpha, beta);
        }
        lemma_honest_steps(tables, chips, steps, chips.len());
        assert(honest(tables, chips, argument_outcome(tables, chips, alpha, beta)));
    }
}

/// An error that ends the walk tells the truth about the tables.
pub proof fn law_walk_errors_tell_truth(tables: Map<Seq<char>, TableModel>)
    ensures
        shrink_outcome(tables).error matches Some(e) ==> tells_truth(tables, shrink_chips_model(), e),
{
    let chips = shrink_chips_model();
    let steps = local_steps(tables, round_constants_model());
    lemma_honest_local(tables, chips);
    lemma_honest_rest(tables, chips);
    lemma_honest_permutation(tables, chips);
    assert(honest(tables, chips, steps[0]) && honest(tables, chips, steps[1]));
    assert(honest(tables, chips, steps[2]) && honest(tables, chips, steps[3]));
    assert(honest(tables, chips, steps[4]) && honest(tables, chips, steps[5]));
    assert(honest(tables, chips, steps[6]) && honest(tables, chips, steps[7]));
    assert forall|i: int| 0 <= i < steps.len() implies honest(tables, chips, #[trigger] steps[i]) by {
        assert(i == 0 || i == 1 || i == 2 || i == 3 || i == 4 || i == 5 || i == 6 || i == 7);
    }
    lemma_honest_steps(tables, chips, steps, 8);
}

/// The heights that can be committed to are the powers of 2 up to `2^25`.
pub proof fn law_commit_heights(n: nat)
    ensures
        is_commit_height(n) <==> n == 1 || n == 2 || n == 4 || n == 8 || n == 16 || n == 32 || n == 64
            || n == 128 || n == 256 || n == 512 || n == 1024 || n == 2048 || n == 4096 || n == 8192 || n
            == 16384 || n == 32768 || n == 65536 || n == 131072 || n == 262144 || n == 524288 || n
            == 1048576 || n == 2097152 || n == 4194304 || n == 8388608 || n == 16777216 || n == 33554432,
{
    lemma2_to64();
    if is_commit_height(n) {
        let k = choose|k: nat| k <= 25 && n == #[trigger] pow2(k);
        assert(k == 0 || k == 1 || k == 2 || k == 3 || k == 4 || k == 5 || k == 6 || k == 7 || k == 8
            || k == 9 || k == 10 || k == 11 || k == 12 || k == 13 || k == 14 || k == 15 || k == 16 || k
            == 17 || k == 18 || k == 19 || k == 20 || k == 21 || k == 22 || k == 23 || k == 24 || k
            == 25);
    }
}

/// Steps that go well up to number `j`, which fails.
proof fn lemma_fails_at(
    steps: Seq<Outcome<WalkErrorView>>,
    j: nat,
    n: nat,
    w: nat,
)
    requires
        j < n <= steps.len(),
        forall|i: int|
            0 <= i < j ==> (#[trigger] steps[i]).error is None && steps[i].trace.len() == w,
        steps[j as int].error is Some,
    ensures
        in_sequence(steps, j).error is None,
        in_sequence(steps, j).trace.len() == j * w,
        in_sequence(steps, n).error == steps[j as int].error,
        in_sequence(steps, n).trace == in_sequence(steps, j).trace + steps[j as int].trace,
    decreases n,
{
    lemma_goes_well(steps, j, w);
    if j < n - 1 {
        lemma_fails_at(steps, j, (n - 1) as nat, w);
    }
}

proof fn lemma_goes_well(steps: Seq<Outcome<WalkErrorView>>, j: nat, w: nat)
    requires
        j <= steps.len(),
        forall|i: int|
            0 <= i < j ==> (#[trigger] steps[i]).error is None && steps[i].trace.len() == w,
    ensures
        in_sequence(steps, j).error is None,
        in_sequence(steps, j).trace.len() == j * w,
    decreases j,
{
    if j > 0 {
        lemma_goes_well(steps, (j - 1) as nat, w);
        assert(steps[j - 1].error is None);
        assert(j * w == (j - 1) * w + w) by (nonlinear_arith);
    } else {
        assert(0 * w == 0);
    }
}

/// A row constraint that gives `w` residuals on each row, on tables whose row `j` is the first that cannot
/// be read: the walk ends with that table's name, and has emitted the residuals of the rows before it and
/// nothing else. The main row is read before the preprocessed row.
pub proof fn law_unreadable_row_ends_rows<C: RowCheck>(
    c: C,
    section: Section,
    tables: Map<Seq<char>, TableModel>,
    main: Seq<char>,
    pre: Option<Seq<char>>,
    n: nat,
    w: nat,
    j: int,
)
    requires
        tables.contains_key(main),
        tables[main].rows == n,
        pre matches Some(t) ==> tables.contains_key(t) && tables[t].rows == n,
        0 <= j < n,
        forall|m: Seq<u32>, q: Seq<u32>| #[trigger] c.residuals(m, q).len() == w,
        forall|i: int| 0 <= i < j ==> #[trigger] tables[main].readable[i],
        pre matches Some(t) ==> forall|i: int| 0 <= i < j ==> #[trigger] tables[t].readable[i],
        !tables[main].readable[j] || (pre matches Some(t) && !tables[t].readable[j]),
    ensures
        ({
            let o = row_check_outcome(c, section, tables, main, pre, n);
            let culprit = if !tables[main].readable[j] {
                main
            } else {
                pre->0
            };
            &&& o.error == Some(WalkErrorView::Read(RowErrorView::Unreadable(culprit)))
            &&& o.trace.len() == j * w
            &&& o.trace == row_check_outcome(c, section, tables, main, pre, j as nat).trace
        }),
{
    let steps = row_check_steps(c, section, tables, main, pre, n);
    assert forall|i: int| 0 <= i < j implies (#[trigger] steps[i]).error is None
        && steps[i].trace.len() == w by {
        assert(tables[main].readable[i]);
        if let Some(t) = pre {
            assert(tables[t].readable[i]);
        }
        assert(steps[i] == row_check_step(c, section, tables, main, pre, i));
    }
    assert(steps[j] == row_check_step(c, section, tables, main, pre, j));
    lemma_fails_at(steps, j as nat, n, w);
    let short = row_check_steps(c, section, tables, main, pre, j as nat);
    assert forall|i: int| 0 <= i < j implies #[trigger] short[i] == steps[i] by {}
    lemma_same_steps(short, steps, j as nat);
}

proof fn lemma_same_steps(
    a: Seq<Outcome<WalkErrorView>>,
    b: Seq<Outcome<WalkErrorView>>,
    n: nat,
)
    requires
        n <= a.len(),
        n <= b.len(),
        forall|i: int| 0 <= i < n ==> #[trigger] a[i] == b[i],
    ensures
        in_sequence(a, n) == in_sequence(b, n),
    decreases n,
{
    if n > 0 {
        lemma_same_steps(a, b, (n - 1) as nat);
        assert(a[n - 1] == b[n - 1]);
    }
}

/// A transition constraint with `own` residuals on each row by itself, on tables whose row `j + 1` is the
/// first that cannot be read: row `j` has still emitted its own residuals, but not those of its links,
/// where the link looks at what cannot be read.
pub proof fn law_unreadable_successor_ends_transitions<C: TransitionCheck>(
    c: C,
    section: Section,
    tables: Map<Seq<char>, TableModel>,
    main: Seq<char>,
    pre: Seq<char>,
    n: nat,
    own: nat,
    j: int,
)
    requires
        tables.contains_key(main),
        tables[main].rows == n,
        tables.contains_key(pre),
        tables[pre].rows == n,
        0 <= j < n - 1,
        forall|row: u32, m: Seq<u32>, q: Seq<u32>| #[trigger] c.residuals(row, m, q).len() == own,
        forall|m: Seq<u32>, q: Seq<u32>, nm: Seq<u32>, nq: Seq<u32>| #[trigger]
            c.links(m, q, nm, nq).len() == c.num_links(),
        forall|i: int| 0 <= i <= j ==> #[trigger] tables[main].readable[i],
        forall|i: int| 0 <= i <= j ==> #[trigger] tables[pre].readable[i],
        !tables[main].readable[j + 1] || (c.looks_at_next_pre() && !tables[pre].readable[j + 1]),
    ensures
        ({
            let o = transition_outcome(c, section, tables, main, pre, n);
            let culprit = if c.looks_at_next_pre() && !tables[pre].readable[j + 1] {
                pre
            } else {
                main
            };
            &&& o.error == Some(WalkErrorView::Read(RowErrorView::Unreadable(culprit)))
            &&& o.trace.len() == j * (own + c.num_links()) + own
            &&& forall|k: int|
                0 <= k < own ==> (#[trigger] o.trace[j * (own + c.num_links()) + k]).value
                    == c.residuals(j as u32, tables[main].data[j], tables[pre].data[j])[k]
        }),
{
    let steps = transition_steps(c, section, tables, main, pre, n);
    let w = own + c.num_links();
    assert forall|i: int| 0 <= i < j implies (#[trigger] steps[i]).error is None
        && steps[i].trace.len() == w by {
        assert(tables[main].readable[i] && tables[pre].readable[i]);
        assert(tables[main].readable[i + 1] && tables[pre].readable[i + 1]);
        let l = link_step(c, section, tables, main, pre, n, i);
        assert(l.error is None && l.trace.len() == c.num_links());
        assert(steps[i] == transition_step(c, section, tables, main, pre, n, i));
    }
    assert(tables[main].readable[j] && tables[pre].readable[j]);
    assert(steps[j] == transition_step(c, section, tables, main, pre, n, j));
    lemma_fails_at(steps, j as nat, n, w);
    let o = transition_outcome(c, section, tables, main, pre, n);
    assert forall|k: int| 0 <= k < own implies (#[trigger] o.trace[j * w + k]).value == c.residuals(
        j as u32,
        tables[main].data[j],
        tables[pre].data[j],
    )[k] by {
        assert(o.trace[j * w + k] == steps[j].trace[k]);
    }
}

/// Of the memory tables the first that is missing is named, in the order `MemoryVar`, `pre/MemoryVar`,
/// `pre/MemoryConst`, `MemoryConst`; they emit nothing.
pub proof fn law_missing_memory_table(tables: Map<Seq<char>, TableModel>, k: int)
    requires
        0 <= k < 4,
    ensures
        ({
            let names = seq!["MemoryVar"@, "pre/MemoryVar"@, "pre/MemoryConst"@, "MemoryConst"@];
            let o = memory_outcome(tables);
            &&& o.trace.len() == 0
            &&& !tables.contains_key(names[k]) && (forall|j: int|
                0 <= j < k ==> tables.contains_key(#[trigger] names[j])) ==> o.error == Some(
                WalkErrorView::MissingTable(names[k]),
            )
            &&& (forall|j: int| 0 <= j < 4 ==> tables.contains_key(#[trigger] names[j])) ==> o.error is None
        }),
{
    let names = seq!["MemoryVar"@, "pre/MemoryVar"@, "pre/MemoryConst"@, "MemoryConst"@];
    assert(names[0] == "MemoryVar"@ && names[1] == "pre/MemoryVar"@ && names[2] == "pre/MemoryConst"@
        && names[3] == "MemoryConst"@);
}

/// Two tables that do not make a pair are refused for the first thing that is wrong: the main table is
/// missing, or not as wide as it has to be; the preprocessed one is; their heights differ.
pub proof fn law_pair_faults(
    tables: Map<Seq<char>, TableModel>,
    main: Seq<char>,
    cols: u32,
    pre: Seq<char>,
    pre_cols: u32,
)
    ensures
        ({
            let r = pairing_error(tables, main, cols, pre, pre_cols);
            let wide = tables.contains_key(main) && tables[main].cols == cols;
            let pre_wide = tables.contains_key(pre) && tables[pre].cols == pre_cols;
            &&& r is None <==> is_pair(tables, main, cols, pre, pre_cols)
            &&& !tables.contains_key(main) ==> r == Some(WalkErrorView::MissingTable(main))
            &&& tables.contains_key(main) && !wide ==> r == Some(
                WalkErrorView::ColumnCount {
                    table: main,
                    expected: cols as nat,
                    got: tables[main].cols as nat,
                },
            )
            &&& wide && !tables.contains_key(pre) ==> r == Some(WalkErrorView::MissingTable(pre))
            &&& wide && tables.contains_key(pre) && !pre_wide ==> r == Some(
                WalkErrorView::ColumnCount {
                    table: pre,
                    expected: pre_cols as nat,
                    got: tables[pre].cols as nat,
                },
            )
            &&& wide && pre_wide && tables[main].rows != tables[pre].rows ==> r == Some(
                WalkErrorView::RowMismatch {
                    table: main,
                    rows: tables[main].rows as nat,
                    other: pre,
                    other_rows: tables[pre].rows as nat,
                },
            )
        }),
{
}

/// The tables of `ExtAlu` have any number of lanes, of 8 preprocessed and 12 main columns each; they are
/// refused for the first thing that is wrong: a table is missing, the main one first; the preprocessed
/// columns make no whole lanes; the main columns are not those of as many lanes; the heights differ.
pub proof fn law_ext_alu_faults(tables: Map<Seq<char>, TableModel>)
    ensures
        ({
            let (main, pre) = ("ExtAlu"@, "pre/ExtAlu"@);
            let r = ext_alu_error(tables);
            let both = tables.contains_key(main) && tables.contains_key(pre);
            let whole = both && tables[pre].cols % 8 == 0;
            let fits = whole && 8 * tables[main].cols == 12 * tables[pre].cols;
            &&& r is None <==> fits && tables[main].rows == tables[pre].rows
            &&& !tables.contains_key(main) ==> r == Some(WalkErrorView::MissingTable(main))
            &&& tables.contains_key(main) && !tables.contains_key(pre) ==> r == Some(
                WalkErrorView::MissingTable(pre),
            )
            &&& both && !whole ==> r == Some(
                WalkErrorView::ColumnGranularity {
                    table: pre,
                    factor: 8,
                    got: tables[pre].cols as nat,
                },
            )
            &&& whole && !fits ==> r == Some(
                WalkErrorView::ColumnCount {
                    table: main,
                    expected: (12 * (tables[pre].cols as int / 8)) as nat,
                    got: tables[main].cols as nat,
                },
            )
            &&& fits && tables[main].rows != tables[pre].rows ==> r == Some(
                WalkErrorView::RowMismatch {
                    table: main,
                    rows: tables[main].rows as nat,
                    other: pre,
                    other_rows: tables[pre].rows as nat,
                },
            )
        }),
{
}

} // verus!
