//! What the challenges are drawn from, what the walk compares them with, and what is exported.

use vstd::prelude::*;
use vstd::utf8::encode_utf8;

use crate::babybear::canonical;
use crate::binding::{
    all_readable, argument_outcome, binding_trace, first_gathering_error, first_uncommittable,
    has_commit_shape, main_traces, permutation_outcome, placed_names, rows_concat, trace_names, trace_of,
    transcript_error,
};
use crate::export::{
    all_permutation_tables, challenge_row, chip_named, companion_of, counts, exported, first_bad_trace, in_order, order_of,
    permutation_limbs, permutation_tables, row_table, tables_in_order, trace_named, trace_table,
    ExportErrorView, TraceView,
};
use crate::extension::BBExt;
use crate::machine::{shrink_chips_model, ChipView};
use crate::matrix::MatrixView;
use crate::meaning::batch_fri::element;
use crate::meaning::orders::law_names_are_sorted;
use crate::names::{lex_le, sorted_by_name};
use crate::pvor::writer::MetaView;
use crate::residuals::Section;
use crate::rows::TableModel;
use crate::transcript::{
    challenge_limbs, challenges, committable, is_commit_height, trace_commitment,
};

verus! {

/// The two residuals that bind the challenges compare the first four exported limbs with `alpha` and the
/// other four with `beta`. They belong to the permutation section and to no row.
pub proof fn law_binding_residuals(limbs: Seq<u32>, alpha: BBExt, beta: BBExt)
    requires
        limbs.len() == 8,
    ensures
        ({
            let t = binding_trace(limbs, alpha, beta);
            &&& t.len() == 2
            &&& t[0].section == Section::Permutation && t[0].row is None
            &&& t[1].section == Section::Permutation && t[1].row is None
            &&& t[0].value == 0 <==> limbs[0] == alpha.c0 && limbs[1] == alpha.c1 && limbs[2] == alpha.c2
                && limbs[3] == alpha.c3
            &&& t[1].value == 0 <==> limbs[4] == beta.c0 && limbs[5] == beta.c1 && limbs[6] == beta.c2
                && limbs[7] == beta.c3
        }),
{
}

/// The permutation argument is walked with the challenges that the transcript draws after the first 231
/// public values and the commitment to the main traces; `alpha` is the first of them and `beta` the
/// second.
pub proof fn law_challenges_are_drawn(tables: Map<Seq<char>, TableModel>, chips: Seq<ChipView>)
    requires
        transcript_error(tables, trace_names(chips)) is None,
    ensures
        ({
            let pv = tables["public_values"@].data[0];
            let limbs = challenge_limbs(
                pv.take(231),
                trace_commitment(main_traces(tables, trace_names(chips))),
            );
            &&& tables.contains_key("public_values"@)
            &&& tables["public_values"@].rows == 1
            &&& tables["public_values"@].cols >= 231
            &&& permutation_outcome(tables, chips) == argument_outcome(
                tables,
                chips,
                element(limbs, 0),
                element(limbs, 4),
            )
        }),
{
}

pub proof fn lemma_concat_at(data: Seq<Seq<u32>>, cols: nat, n: nat, r: int, j: int)
    requires
        n <= data.len(),
        forall|i: int| 0 <= i < n ==> (#[trigger] data[i]).len() == cols,
    ensures
        rows_concat(data, n).len() == n * cols,
        0 <= r < n && 0 <= j < cols ==> rows_concat(data, n)[r * cols + j] == data[r][j],
    decreases n,
{
    if n > 0 {
        let m = (n - 1) as nat;
        lemma_concat_at(data, cols, m, r, j);
        assert(data[n - 1].len() == cols);
        assert(n * cols == m * cols + cols) by (nonlinear_arith)
            requires
                n == m + 1,
        ;
        if 0 <= r < m && 0 <= j < cols {
            assert(0 <= r * cols + j < m * cols) by (nonlinear_arith)
                requires
                    0 <= r < m,
                    0 <= j < cols,
            ;
        }
    } else {
        assert(0 * cols == 0);
    }
}

/// What is committed to: one matrix for each chip, in the lexicographic order of the chips' names, with
/// the values of the chip's main table row by row.
pub proof fn law_committed_traces(
    tables: Map<Seq<char>, TableModel>,
    chips: Seq<ChipView>,
    k: int,
    r: int,
    j: int,
)
    requires
        0 <= k < chips.len(),
    ensures
        ({
            let names = trace_names(chips);
            let traces = main_traces(tables, names);
            let t = tables[names[k]];
            &&& names.len() == chips.len()
            &&& names.to_multiset() == chips.map_values(|c: ChipView| c.name).to_multiset()
            &&& forall|a: int, b: int|
                0 <= a < b < names.len() ==> lex_le(
                    encode_utf8(#[trigger] names[a]),
                    encode_utf8(#[trigger] names[b]),
                )
            &&& traces.len() == chips.len()
            &&& traces[k].width == t.cols
            &&& t.data.len() == t.rows && (forall|i: int|
                0 <= i < t.rows ==> (#[trigger] t.data[i]).len() == t.cols) ==> {
                &&& traces[k].values.len() == t.rows * t.cols
                &&& 0 <= r < t.rows && 0 <= j < t.cols ==> traces[k].values[r * t.cols + j]
                    == t.data[r][j]
            }
        }),
{
    let items = placed_names(chips);
    law_names_are_sorted(items);
    let sorted = sorted_by_name(items);
    let names = trace_names(chips);
    assert forall|a: int, b: int| 0 <= a < b < names.len() implies lex_le(
        encode_utf8(#[trigger] names[a]),
        encode_utf8(#[trigger] names[b]),
    ) by {
        assert(names[a] == sorted[a].0 && names[b] == sorted[b].0);
    }
    lemma_mapped_multiset(sorted, items);
    assert(items.map_values(|x: (Seq<char>, nat)| x.0) =~= chips.map_values(|c: ChipView| c.name));
    let t = tables[names[k]];
    if t.data.len() == t.rows && (forall|i: int|
        0 <= i < t.rows ==> (#[trigger] t.data[i]).len() == t.cols) {
        lemma_concat_at(t.data, t.cols as nat, t.rows as nat, r, j);
    }
}

/// A table whose rows are all there, each as wide as the table.
pub open spec fn is_regular(t: TableModel) -> bool {
    t.data.len() == t.rows && forall|i: int| 0 <= i < t.rows ==> (#[trigger] t.data[i]).len() == t.cols
}

/// A regular table can be committed to exactly where it has columns and as many rows as a tree has leaves.
pub proof fn lemma_commit_shape(t: TableModel)
    requires
        is_regular(t),
    ensures
        has_commit_shape(trace_of(t)) <==> t.cols > 0 && is_commit_height(t.rows as nat),
{
    lemma_concat_at(t.data, t.cols as nat, t.rows as nat, 0, 0);
    if t.cols > 0 {
        assert(trace_of(t).values.len() == t.rows * t.cols);
        vstd::arithmetic::div_mod::lemma_div_multiples_vanish(t.rows as int, t.cols as int);
        vstd::arithmetic::mul::lemma_mul_is_commutative(t.rows as int, t.cols as int);
        assert(trace_of(t).height() == t.rows);
    }
}

proof fn lemma_gathered(tables: Map<Seq<char>, TableModel>, names: Seq<Seq<char>>, n: nat, k: int)
    requires
        n <= names.len(),
        0 <= k < n,
        first_gathering_error(tables, names, n) is None,
        first_uncommittable(main_traces(tables, names), n) is None,
    ensures
        tables.contains_key(names[k]),
        all_readable(tables[names[k]]),
        has_commit_shape(trace_of(tables[names[k]])),
    decreases n,
{
    if k < n - 1 {
        lemma_gathered(tables, names, (n - 1) as nat, k);
    } else {
        assert(main_traces(tables, names)[k] == trace_of(tables[names[k]]));
    }
}

/// Challenges are drawn only where every chip has a main table all of whose rows can be read, with columns
/// and as many rows as a tree has leaves.
pub proof fn law_all_chips_are_committed(
    tables: Map<Seq<char>, TableModel>,
    chips: Seq<ChipView>,
    c: int,
)
    requires
        transcript_error(tables, trace_names(chips)) is None,
        0 <= c < chips.len(),
    ensures
        ({
            let t = tables[chips[c].name];
            &&& tables.contains_key(chips[c].name)
            &&& forall|i: int| 0 <= i < t.rows ==> #[trigger] t.readable[i]
            &&& is_regular(t) ==> t.cols > 0 && is_commit_height(t.rows as nat)
        }),
{
    broadcast use vstd::seq_lib::group_to_multiset_ensures;

    let names = trace_names(chips);
    let all = chips.map_values(|x: ChipView| x.name);
    law_committed_traces(tables, chips, c, 0, 0);
    assert(all[c] == chips[c].name);
    assert(all.contains(chips[c].name));
    assert(all.to_multiset().count(chips[c].name) > 0);
    assert(names.contains(chips[c].name));
    let k = choose|k: int| 0 <= k < names.len() && names[k] == chips[c].name;
    lemma_gathered(tables, names, names.len(), k);
    if is_regular(tables[chips[c].name]) {
        lemma_commit_shape(tables[chips[c].name]);
    }
}

/// Lists of the same items have the same first parts of their items.
proof fn lemma_mapped_multiset(a: Seq<(Seq<char>, nat)>, b: Seq<(Seq<char>, nat)>)
    requires
        a.to_multiset() == b.to_multiset(),
    ensures
        a.map_values(|x: (Seq<char>, nat)| x.0).to_multiset() == b.map_values(
            |x: (Seq<char>, nat)| x.0,
        ).to_multiset(),
    decreases a.len(),
{
    broadcast use vstd::seq_lib::group_to_multiset_ensures;

    let f = |x: (Seq<char>, nat)| x.0;
    assert(a.len() == b.len()) by {
        assert(a.to_multiset().len() == a.len());
        assert(b.to_multiset().len() == b.len());
    }
    if a.len() == 0 {
        assert(a.map_values(f) =~= b.map_values(f));
    } else {
        let x = a.last();
        let t = a.drop_last();
        assert(a =~= t.push(x));
        assert(a.contains(x)) by {
            assert(a[a.len() - 1] == x);
        }
        assert(a.to_multiset().count(x) > 0);
        assert(b.contains(x));
        let i = choose|i: int| 0 <= i < b.len() && b[i] == x;
        let u = b.remove(i);
        assert(u.to_multiset() =~= b.to_multiset().remove(x));
        assert(t.to_multiset() =~= a.to_multiset().remove(x));
        lemma_mapped_multiset(t, u);
        assert(a.map_values(f) =~= t.map_values(f).push(x.0));
        assert(b.map_values(f).remove(i) =~= u.map_values(f));
        assert(b.map_values(f)[i] == x.0);
        assert(b.map_values(f).remove(i).to_multiset() =~= b.map_values(f).to_multiset().remove(x.0));
        assert(b.map_values(f).contains(x.0));
        assert(b.map_values(f).to_multiset().count(x.0) > 0);
        assert(b.map_values(f).to_multiset() =~= u.map_values(f).to_multiset().insert(x.0));
        assert(a.map_values(f).to_multiset() =~= t.map_values(f).to_multiset().insert(x.0));
    }
}

/// Each trace stands somewhere in the order of traces.
proof fn lemma_in_order(prefix: Seq<char>, traces: Seq<TraceView>, i: int) -> (k: int)
    requires
        0 <= i < traces.len(),
    ensures
        order_of(prefix, traces).len() == traces.len(),
        0 <= k < traces.len(),
        order_of(prefix, traces)[k] == (prefix + traces[i].name, i as nat),
{
    broadcast use vstd::seq_lib::group_to_multiset_ensures;

    let items = Seq::new(traces.len(), |i: int| (prefix + traces[i].name, i as nat));
    law_names_are_sorted(items);
    let sorted = sorted_by_name(items);
    assert(items.contains(items[i]));
    assert(items.to_multiset().count(items[i]) > 0);
    assert(sorted.contains(items[i]));
    choose|k: int| 0 <= k < sorted.len() && sorted[k] == items[i]
}

/// What is exported begins with the first 231 public values and the limbs of the challenges that the
/// transcript draws after them and the main traces; behind them stand all preprocessed traces, under
/// `pre/` and their names, and all main traces under theirs, each group in the order of the names, with
/// their dimensions and values.
pub proof fn law_export_holds_all_traces(
    public_values: Seq<u32>,
    main: Seq<TraceView>,
    pre: Seq<TraceView>,
    list: Seq<MetaView>,
    i: int,
    j: int,
)
    requires
        exported(public_values, main, pre) == Ok::<Seq<MetaView>, ExportErrorView>(list),
    ensures
        ({
            let limbs = challenge_limbs(
                public_values.take(231),
                trace_commitment(in_order(order_of(Seq::empty(), main), main)),
            );
            let p = pre.len();
            &&& list.len() >= 2 + pre.len() + main.len()
            &&& list[0].name == "public_values"@
            &&& list[0].rows == 1 && list[0].cols == 231
            &&& list[0].values == public_values.take(231)
            &&& list[1].name == "perm_challenges"@
            &&& list[1].rows == 1 && list[1].cols == 8
            &&& list[1].values.len() == 8
            &&& forall|k: int| 0 <= k < 8 ==> #[trigger] list[1].values[k] == limbs[k]
            &&& 0 <= i < pre.len() ==> exists|k: int|
                2 <= k < 2 + p && {
                    &&& (#[trigger] list[k]).name == "pre/"@ + pre[i].name
                    &&& list[k].values == pre[i].trace.values
                    &&& list[k].rows == pre[i].trace.height() as u32
                    &&& list[k].cols == pre[i].trace.width as u32
                }
            &&& 0 <= j < main.len() ==> exists|k: int|
                2 + p <= k < 2 + p + main.len() && {
                    &&& (#[trigger] list[k]).name == main[j].name
                    &&& list[k].values == main[j].trace.values
                    &&& list[k].rows == main[j].trace.height() as u32
                    &&& list[k].cols == main[j].trace.width as u32
                }
            &&& forall|x: int, y: int|
                2 <= x < y < 2 + p || 2 + p <= x < y < 2 + p + main.len() ==> lex_le(
                    encode_utf8((#[trigger] list[x]).name),
                    encode_utf8((#[trigger] list[y]).name),
                )
        }),
{
    let order = order_of(Seq::empty(), main);
    let pre_order = order_of("pre/"@, pre);
    let limbs = challenge_limbs(
        public_values.take(231),
        trace_commitment(in_order(order, main)),
    );
    let (alpha, beta) = (element(limbs, 0), element(limbs, 4));
    let head = seq![
        row_table("public_values"@, public_values.take(231)),
        row_table("perm_challenges"@, challenge_row(alpha, beta)),
    ];
    let a = tables_in_order(pre_order, pre);
    let b = tables_in_order(order, main);
    law_names_are_sorted(Seq::new(pre.len(), |i: int| ("pre/"@ + pre[i].name, i as nat)));
    law_names_are_sorted(Seq::new(main.len(), |i: int| (Seq::<char>::empty() + main[i].name, i as nat)));
    assert(a.len() == pre.len());
    assert(b.len() == main.len());
    assert(list.take((2 + a.len() + b.len()) as int) =~= head + a + b);
    let front = list.take((2 + a.len() + b.len()) as int);
    assert forall|k: int| 0 <= k < front.len() implies list[k] == #[trigger] front[k] by {}
    assert(list[0] == head[0] && list[1] == head[1]);
    if 0 <= i < pre.len() {
        let k = lemma_in_order("pre/"@, pre, i);
        assert(front[2 + k] == a[k]);
        assert(list[2 + k] == front[2 + k]);
        assert(a[k] == trace_table("pre/"@ + pre[i].name, pre[i].trace));
        assert(list[2 + k].name == "pre/"@ + pre[i].name);
    }
    if 0 <= j < main.len() {
        let k = lemma_in_order(Seq::empty(), main, j);
        assert(Seq::<char>::empty() + main[j].name =~= main[j].name);
        assert(front[2 + a.len() + k] == b[k]);
        assert(list[2 + a.len() + k] == front[2 + a.len() + k]);
        assert(b[k] == trace_table(main[j].name, main[j].trace));
        assert(list[2 + a.len() + k].name == main[j].name);
    }
    assert forall|x: int, y: int|
        2 <= x < y < 2 + pre.len() || 2 + pre.len() <= x < y < 2 + pre.len() + main.len() implies lex_le(
        encode_utf8((#[trigger] list[x]).name),
        encode_utf8((#[trigger] list[y]).name),
    ) by {
        assert(list[x] == front[x] && list[y] == front[y]);
        if y < 2 + pre.len() {
            assert(front[x] == a[x - 2] && front[y] == a[y - 2]);
            assert(a[x - 2].name == pre_order[x - 2].0 && a[y - 2].name == pre_order[y - 2].0);
        } else {
            let n = 2 + a.len() as int;
            assert(front[x] == b[x - n] && front[y] == b[y - n]);
            assert(b[x - n].name == order[x - n].0 && b[y - n].name == order[y - n].0);
        }
    }
}

/// Each item of an order is one of the traces.
proof fn lemma_from_order(prefix: Seq<char>, traces: Seq<TraceView>, k: int)
    requires
        0 <= k < traces.len(),
    ensures
        order_of(prefix, traces).len() == traces.len(),
        order_of(prefix, traces)[k].1 < traces.len(),
        order_of(prefix, traces)[k].0 == prefix + traces[order_of(prefix, traces)[k].1 as int].name,
{
    broadcast use vstd::seq_lib::group_to_multiset_ensures;

    let items = Seq::new(traces.len(), |i: int| (prefix + traces[i].name, i as nat));
    law_names_are_sorted(items);
    let sorted = sorted_by_name(items);
    assert(sorted.contains(sorted[k]));
    assert(sorted.to_multiset().count(sorted[k]) > 0);
    assert(items.contains(sorted[k]));
    let i = choose|i: int| 0 <= i < items.len() && items[i] == sorted[k];
    assert(items[i].1 == i);
}

/// The chip that has a name is the first one of that name.
proof fn lemma_chip_named(chips: Seq<ChipView>, from: nat, c: nat)
    requires
        from <= c < chips.len(),
        forall|k: int| from <= k < c ==> (#[trigger] chips[k]).name != chips[c as int].name,
    ensures
        chip_named(chips, chips[c as int].name, from) == Some(c),
    decreases c - from,
{
    if from < c {
        assert(chips[from as int].name != chips[c as int].name);
        lemma_chip_named(chips, from + 1, c);
    }
}

/// The preprocessed trace of a name is the last one of that name, if there is one.
pub open spec fn is_companion(pre: Seq<TraceView>, name: Seq<char>, m: Option<MatrixView>) -> bool {
    match m {
        Some(m) => exists|i: int|
            0 <= i < pre.len() && (#[trigger] pre[i]).name == name && pre[i].trace == m && forall|k: int|
                i < k < pre.len() ==> (#[trigger] pre[k]).name != name,
        None => forall|k: int| 0 <= k < pre.len() ==> (#[trigger] pre[k]).name != name,
    }
}

proof fn lemma_trace_named(traces: Seq<TraceView>, name: Seq<char>, n: nat, i: int)
    requires
        -1 <= i < n <= traces.len() || (n == 0 && i == -1),
        i >= 0 ==> traces[i].name == name,
        forall|k: int| i < k < n ==> (#[trigger] traces[k]).name != name,
    ensures
        trace_named(traces, name, n) == (if i >= 0 {
            Some(i)
        } else {
            None
        }),
    decreases n,
{
    if n > 0 && i < n - 1 {
        assert(traces[n - 1].name != name);
        lemma_trace_named(traces, name, (n - 1) as nat, i);
    }
}

proof fn lemma_companion(pre: Seq<TraceView>, name: Seq<char>, m: Option<MatrixView>)
    requires
        is_companion(pre, name, m),
    ensures
        companion_of(pre, name) == m,
{
    match m {
        Some(t) => {
            let i = choose|i: int|
                0 <= i < pre.len() && (#[trigger] pre[i]).name == name && pre[i].trace == t && forall|k: int|
                    i < k < pre.len() ==> (#[trigger] pre[k]).name != name;
            lemma_trace_named(pre, name, pre.len(), i);
        },
        None => {
            lemma_trace_named(pre, name, pre.len(), -1);
        },
    }
}

/// Where the tables of one chip stand among those of all chips.
proof fn lemma_among_all(
    chips: Seq<ChipView>,
    order: Seq<(Seq<char>, nat)>,
    main: Seq<TraceView>,
    pre: Seq<TraceView>,
    alpha: BBExt,
    beta: BBExt,
    n: nat,
    m: int,
) -> (at: int)
    requires
        n <= order.len(),
        0 <= m < n,
        counts(order, m),
        all_permutation_tables(chips, order, main, pre, alpha, beta, n) is Ok,
    ensures
        ({
            let one = permutation_tables(
                chips,
                order[m].0,
                companion_of(pre, order[m].0),
                main[order[m].1 as int].trace,
                alpha,
                beta,
            );
            let all = all_permutation_tables(chips, order, main, pre, alpha, beta, n)->Ok_0;
            &&& one is Ok
            &&& 0 <= at
            &&& at + one->Ok_0.len() <= all.len()
            &&& all.subrange(at, (at + one->Ok_0.len()) as int) == one->Ok_0
        }),
    decreases n,
{
    let before = all_permutation_tables(chips, order, main, pre, alpha, beta, (n - 1) as nat)->Ok_0;
    let all = all_permutation_tables(chips, order, main, pre, alpha, beta, n)->Ok_0;
    let one = permutation_tables(
        chips,
        order[m].0,
        companion_of(pre, order[m].0),
        main[order[m].1 as int].trace,
        alpha,
        beta,
    )->Ok_0;
    if m == n - 1 {
        assert(all == before + one);
        assert(all.subrange(before.len() as int, (before.len() + one.len()) as int) =~= one);
        before.len() as int
    } else {
        let at = lemma_among_all(chips, order, main, pre, alpha, beta, (n - 1) as nat, m);
        assert(all.subrange(at, (at + one.len()) as int) =~= before.subrange(
            at,
            (at + one.len()) as int,
        ));
        at
    }
}

/// Where a trace whose name no other one has stands in the order.
proof fn lemma_counted_place(main: Seq<TraceView>, j: int) -> (m: int)
    requires
        0 <= j < main.len(),
        forall|k: int| 0 <= k < main.len() && k != j ==> (#[trigger] main[k]).name != main[j].name,
    ensures
        0 <= m < order_of(Seq::empty(), main).len(),
        order_of(Seq::empty(), main)[m] == (main[j].name, j as nat),
        counts(order_of(Seq::empty(), main), m),
{
    let order = order_of(Seq::empty(), main);
    assert(Seq::<char>::empty() + main[j].name =~= main[j].name);
    let m = lemma_in_order(Seq::empty(), main, j);
    law_names_are_sorted(Seq::new(main.len(), |i: int| (Seq::<char>::empty() + main[i].name, i as nat)));
    if m + 1 < order.len() && order[m + 1].0 == order[m].0 {
        lemma_from_order(Seq::empty(), main, m + 1);
        let other = main[order[m + 1].1 as int].name;
        assert(Seq::<char>::empty() + other =~= other);
        assert(order[m].1 < order[m + 1].1);
    }
    m
}

/// The tables of the permutation traces stand behind those of the other traces.
proof fn lemma_perms_last(
    public_values: Seq<u32>,
    main: Seq<TraceView>,
    pre: Seq<TraceView>,
    list: Seq<MetaView>,
    alpha: BBExt,
    beta: BBExt,
)
    requires
        exported(public_values, main, pre) == Ok::<Seq<MetaView>, ExportErrorView>(list),
        challenges(public_values, in_order(order_of(Seq::empty(), main), main)) == (alpha, beta),
    ensures
        ({
            let order = order_of(Seq::empty(), main);
            let all = all_permutation_tables(
                shrink_chips_model(),
                order,
                main,
                pre,
                alpha,
                beta,
                order.len(),
            );
            &&& all is Ok
            &&& list.len() == 2 + pre.len() + main.len() + all->Ok_0.len()
            &&& forall|k: int|
                0 <= k < all->Ok_0.len() ==> #[trigger] all->Ok_0[k] == list[2 + pre.len() + main.len()
                    + k]
        }),
{
    law_names_are_sorted(Seq::new(main.len(), |i: int| (Seq::<char>::empty() + main[i].name, i as nat)));
    law_names_are_sorted(Seq::new(pre.len(), |i: int| ("pre/"@ + pre[i].name, i as nat)));
}

/// Behind the traces stand, for each main trace that a chip with a permutation trace is named after, the
/// permutation trace under `perm/` and the name, and under `perm_meta/` and the name one row that states
/// how many interactions an entry sums up and how many there are.
#[verifier::spinoff_prover]
#[verifier::rlimit(40)]
pub proof fn law_export_holds_arguments(
    public_values: Seq<u32>,
    main: Seq<TraceView>,
    pre: Seq<TraceView>,
    list: Seq<MetaView>,
    j: int,
    c: nat,
    companion: Option<MatrixView>,
)
    requires
        exported(public_values, main, pre) == Ok::<Seq<MetaView>, ExportErrorView>(list),
        0 <= j < main.len(),
        forall|k: int| 0 <= k < main.len() && k != j ==> (#[trigger] main[k]).name != main[j].name,
        c < shrink_chips_model().len(),
        shrink_chips_model()[c as int].name == main[j].name,
        forall|k: int| 0 <= k < c ==> (#[trigger] shrink_chips_model()[k]).name != main[j].name,
        shrink_chips_model()[c as int].permutation_width > 0,
        is_companion(pre, main[j].name, companion),
    ensures
        ({
            let chip = shrink_chips_model()[c as int];
            let limbs = challenge_limbs(
                public_values.take(231),
                trace_commitment(in_order(order_of(Seq::empty(), main), main)),
            );
            let (values, width, height) = permutation_limbs(
                c,
                companion,
                main[j].trace,
                seq![limbs[0], limbs[1], limbs[2], limbs[3]],
                seq![limbs[4], limbs[5], limbs[6], limbs[7]],
            );
            exists|k: int|
                2 + pre.len() + main.len() <= k < list.len() - 1 && {
                    let meta = list[k + 1];
                    &&& (#[trigger] list[k]).name == "perm/"@ + main[j].name
                    &&& list[k].rows == height as u32
                    &&& list[k].cols == (4 * width) as u32
                    &&& list[k].values == values
                    &&& meta.name == "perm_meta/"@ + main[j].name
                    &&& meta.rows == 1
                    &&& meta.cols == 2
                    &&& meta.values.len() == 2
                    &&& meta.values[0] == chip.batch_size as u32
                    &&& meta.values[1] == chip.num_interactions as u32
                }
        }),
{
    let chips = shrink_chips_model();
    let chip = chips[c as int];
    let order = order_of(Seq::empty(), main);
    let limbs = challenge_limbs(
        public_values.take(231),
        trace_commitment(in_order(order, main)),
    );
    let (alpha, beta) = (element(limbs, 0), element(limbs, 4));
    let m = lemma_counted_place(main, j);
    lemma_chip_named(chips, 0, c);
    lemma_companion(pre, main[j].name, companion);
    let at = lemma_among_all(chips, order, main, pre, alpha, beta, order.len(), m);
    let one = permutation_tables(chips, main[j].name, companion, main[j].trace, alpha, beta)->Ok_0;
    let all = all_permutation_tables(chips, order, main, pre, alpha, beta, order.len())->Ok_0;
    assert(one.len() == 2);
    assert(all.subrange(at, at + 2)[0] == one[0] && all.subrange(at, at + 2)[1] == one[1]);
    lemma_perms_last(public_values, main, pre, list, alpha, beta);
    let k = 2 + pre.len() + main.len() + at;
    assert(all[at] == list[k] && all[at + 1] == list[k + 1]);
    assert(one[1].values[0] == chip.batch_size as u32);
    assert(list[k].name == "perm/"@ + main[j].name);
}

/// A trace that can be committed to: it has columns, whole rows and as many of them as a tree has leaves,
/// and its values are in the field.
pub open spec fn can_be_committed(m: MatrixView) -> bool {
    &&& m.width > 0
    &&& exists|h: nat| #[trigger] is_commit_height(h) && m.values.len() == m.width * h
    &&& forall|k: int| 0 <= k < m.values.len() ==> #[trigger] m.values[k] < 2013265921
}

proof fn lemma_can_be_committed(m: MatrixView)
    ensures
        committable(m) <==> can_be_committed(m),
{
    if committable(m) {
        assert(is_commit_height(m.height()) && m.values.len() == m.width * m.height());
    }
    if can_be_committed(m) {
        let h = choose|h: nat| #[trigger] is_commit_height(h) && m.values.len() == m.width * h;
        assert(m.width * h == h * m.width) by (nonlinear_arith);
        vstd::arithmetic::div_mod::lemma_div_multiples_vanish(h as int, m.width as int);
        assert((h * m.width) as int / m.width as int == h) by {
            vstd::arithmetic::mul::lemma_mul_is_commutative(h as int, m.width as int);
        }
        assert(m.height() == h);
        assert(canonical(m.values));
    }
}

proof fn lemma_first_bad(traces: Seq<MatrixView>, n: nat)
    requires
        n <= traces.len(),
    ensures
        match first_bad_trace(traces, n) {
            Some(k) => k < n && !can_be_committed(traces[k as int]) && forall|i: int|
                0 <= i < k ==> can_be_committed(#[trigger] traces[i]),
            None => forall|i: int| 0 <= i < n ==> can_be_committed(#[trigger] traces[i]),
        },
    decreases n,
{
    if n > 0 {
        lemma_first_bad(traces, (n - 1) as nat);
        lemma_can_be_committed(traces[n - 1]);
    }
}

/// The error of a failed permutation table names a main trace.
proof fn lemma_permutation_failed(
    chips: Seq<ChipView>,
    order: Seq<(Seq<char>, nat)>,
    main: Seq<TraceView>,
    pre: Seq<TraceView>,
    alpha: BBExt,
    beta: BBExt,
    n: nat,
)
    requires
        n <= order.len(),
    ensures
        all_permutation_tables(chips, order, main, pre, alpha, beta, n) matches Err(e) ==> exists|m: int|
            0 <= m < n && e == ExportErrorView::Permutation((#[trigger] order[m]).0),
    decreases n,
{
    if n > 0 {
        lemma_permutation_failed(chips, order, main, pre, alpha, beta, (n - 1) as nat);
        if all_permutation_tables(chips, order, main, pre, alpha, beta, (n - 1) as nat) is Ok {
            if all_permutation_tables(chips, order, main, pre, alpha, beta, n) is Err {
                assert(order[n - 1].0 == order[n - 1].0);
            }
        }
    }
}

/// Nothing is exported for too few public values or such as are not in the field, without main traces, or
/// where a main trace cannot be committed to; the error says which, and names a trace that cannot. What is
/// exported has been committed to.
pub proof fn law_export_errors(public_values: Seq<u32>, main: Seq<TraceView>, pre: Seq<TraceView>)
    ensures
        ({
            let r = exported(public_values, main, pre);
            let usable = public_values.len() >= 231 && forall|k: int|
                0 <= k < public_values.len() ==> #[trigger] public_values[k] < 2013265921;
            let committed = forall|i: int|
                0 <= i < main.len() ==> can_be_committed((#[trigger] main[i]).trace);
            &&& !usable <==> r is Err && r->Err_0 is PublicValues
            &&& usable && main.len() == 0 <==> r is Err && r->Err_0 is NoTraces
            &&& usable && !committed <==> r is Err && r->Err_0 is Trace
            &&& r matches Err(ExportErrorView::Trace(name)) ==> exists|i: int|
                0 <= i < main.len() && (#[trigger] main[i]).name == name && !can_be_committed(main[i].trace)
            &&& r matches Err(ExportErrorView::Permutation(name)) ==> exists|i: int|
                0 <= i < main.len() && (#[trigger] main[i]).name == name
            &&& r is Ok ==> usable && committed && main.len() > 0
        }),
{
    let r = exported(public_values, main, pre);
    let order = order_of(Seq::empty(), main);
    let traces = in_order(order, main);
    let (alpha, beta) = challenges(public_values, traces);
    law_names_are_sorted(Seq::new(main.len(), |i: int| (Seq::<char>::empty() + main[i].name, i as nat)));
    lemma_first_bad(traces, traces.len());
    assert forall|k: int| 0 <= k < main.len() implies {
        let i = (#[trigger] order[k]).1 as int;
        0 <= i < main.len() && order[k].0 == main[i].name && traces[k] == main[i].trace
    } by {
        lemma_from_order(Seq::empty(), main, k);
        let name = main[order[k].1 as int].name;
        assert(Seq::<char>::empty() + name =~= name);
    }
    if first_bad_trace(traces, traces.len()) is None {
        assert forall|i: int| 0 <= i < main.len() implies can_be_committed((#[trigger] main[i]).trace) by {
            let k = lemma_in_order(Seq::empty(), main, i);
            assert(traces[k] == main[i].trace);
        }
    } else {
        let k = first_bad_trace(traces, traces.len())->0 as int;
        let i = order[k].1 as int;
        assert(main[i].trace == traces[k] && main[i].name == order[k].0);
    }
    lemma_permutation_failed(shrink_chips_model(), order, main, pre, alpha, beta, order.len());
    if let Err(ExportErrorView::Permutation(name)) = r {
        let m = choose|m: int| 0 <= m < order.len() && name == (#[trigger] order[m]).0;
        assert(main[order[m].1 as int].name == name);
    }
    assert(canonical(public_values) <==> forall|k: int|
        0 <= k < public_values.len() ==> #[trigger] public_values[k] < 2013265921);
}

} // verus!
