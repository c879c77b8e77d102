//! What is exported satisfies the permutation argument that the walk checks.

use vstd::arithmetic::power2::pow2;
use vstd::prelude::*;

use crate::binding::{
    all_readable, binding_trace, main_traces, permutation_outcome, placed_names, trace_names,
};
use crate::export::{
    all_permutation_tables, arguments_hold, challenge_row, chip_named, companion_of,
    companion_width, counts, exported, exported_argument_holds, exported_arguments_hold, in_order,
    limb_matrix, limbs_of, order_of, permutable, permutation_limbs, permutation_tables, row_table,
    tables_in_order, trace_named, trace_table, ExportErrorView, TraceView,
};
use crate::extension::{e_block, BBExt};
use crate::laws::{law_export_is_bound, lemma_no_bad_trace, names_differ};
use crate::logup::{argument_holds, has_trace_shape, trace_width};
use crate::machine::{shrink_chips_model, ChipView};
use crate::matrix::MatrixView;
use crate::names::{lemma_sorted_by_name, sorted_by_name};
use crate::permutation::{
    chip_outcome, chip_steps, chips_outcome, companion_row, interactions_error, meta_name, perm_name,
    permutation_error, permutation_row, permutation_steps, pre_cols, pre_name, pre_row,
};
use crate::pvor::reader::{container_tables, find_table};
use crate::pvor::round_trip::{
    infos_of, law_written_tables_are_served, lemma_pieces, written_model,
};
use crate::pvor::writer::{num_values, write_tables, MetaView};
use crate::pvor::InfoView;
use crate::residuals::{
    emits, followed_by, in_sequence, values_of, Emission, Outcome,
};
use crate::rows::TableModel;
use crate::sizing::ceil_div;
use crate::stream::zeros;
use crate::transcript::{challenges, committable, MAX_LOG_HEIGHT, NUM_PUBLIC_VALUES};
use crate::walk_error::WalkErrorView;

verus! {

/// Every emission is zero.
pub open spec fn emits_zeros(trace: Seq<Emission>) -> bool {
    forall|i: int| 0 <= i < trace.len() ==> (#[trigger] trace[i]).value == 0
}

proof fn lemma_followed_zeros(a: Outcome<WalkErrorView>, b: Outcome<WalkErrorView>)
    requires
        emits_zeros(a.trace),
        emits_zeros(b.trace),
    ensures
        emits_zeros(followed_by(a, b).trace),
{
    let t = followed_by(a, b).trace;
    assert forall|i: int| 0 <= i < t.len() implies (#[trigger] t[i]).value == 0 by {
        if i < a.trace.len() {
            assert(t[i] == a.trace[i]);
        } else {
            assert(t[i] == b.trace[i - a.trace.len()]);
        }
    }
}

proof fn lemma_sequence_zeros(steps: Seq<Outcome<WalkErrorView>>, n: nat)
    requires
        n <= steps.len(),
        forall|i: int| 0 <= i < n ==> emits_zeros((#[trigger] steps[i]).trace),
    ensures
        emits_zeros(in_sequence(steps, n).trace),
        (forall|i: int| 0 <= i < n ==> (#[trigger] steps[i]).error is None) ==> in_sequence(
            steps,
            n,
        ).error is None,
    decreases n,
{
    if n > 0 {
        lemma_sequence_zeros(steps, (n - 1) as nat);
        lemma_followed_zeros(in_sequence(steps, (n - 1) as nat), steps[n - 1]);
    }
}

/// Sorting by name keeps the members of a list.
proof fn lemma_same_members(items: Seq<(Seq<char>, nat)>, x: (Seq<char>, nat))
    ensures
        sorted_by_name(items).contains(x) == items.contains(x),
{
    broadcast use vstd::seq_lib::group_to_multiset_ensures;

    lemma_sorted_by_name(items);
    let sorted = sorted_by_name(items);
    assert(sorted.contains(x) == (sorted.to_multiset().count(x) > 0));
    assert(items.contains(x) == (items.to_multiset().count(x) > 0));
}

/// The first chip of a name is the only one.
proof fn lemma_chip_named(chips: Seq<ChipView>, c: nat, i: nat)
    requires
        i <= c < chips.len(),
        forall|d: int| 0 <= d < c ==> (#[trigger] chips[d]).name != chips[c as int].name,
    ensures
        chip_named(chips, chips[c as int].name, i) == Some(c),
    decreases c - i,
{
    if i < c {
        assert(chips[i as int].name != chips[c as int].name);
        lemma_chip_named(chips, c, i + 1);
    }
}

/// A trace that is found has the name that was looked for; where none is found, none has it.
proof fn lemma_trace_named(traces: Seq<TraceView>, name: Seq<char>, n: nat)
    requires
        n <= traces.len(),
    ensures
        match trace_named(traces, name, n) {
            Some(i) => 0 <= i < n && traces[i].name == name,
            None => forall|i: int| 0 <= i < n ==> (#[trigger] traces[i]).name != name,
        },
    decreases n,
{
    if n > 0 {
        lemma_trace_named(traces, name, (n - 1) as nat);
    }
}

/// A table that a container serves is in its list.
proof fn lemma_found_in_list(infos: Seq<InfoView>, name: Seq<char>, n: nat)
    requires
        n <= infos.len(),
        find_table(infos, name, n) is Some,
    ensures
        exists|i: int| 0 <= i < n && (#[trigger] infos[i]).name == name,
    decreases n,
{
    if n > 0 {
        if infos[n - 1].name != name {
            lemma_found_in_list(infos, name, (n - 1) as nat);
        }
    }
}

/// The third letter tells the tables of the permutation argument from preprocessed tables.
spec fn has_third_letter(name: Seq<char>, letter: char) -> bool {
    name.len() > 2 && name[2] == letter
}

proof fn lemma_third_letters(name: Seq<char>)
    ensures
        has_third_letter(perm_name(name), 'r'),
        has_third_letter(meta_name(name), 'r'),
        has_third_letter(pre_name(name), 'e'),
        has_third_letter("public_values"@, 'b'),
        has_third_letter("perm_challenges"@, 'r'),
{
    reveal_strlit("perm/");
    reveal_strlit("perm_meta/");
    reveal_strlit("pre/");
    reveal_strlit("public_values");
    reveal_strlit("perm_challenges");
}

/// Names behind the same prefix are equal where the whole is.
proof fn lemma_prefix_drops(a: Seq<char>, b: Seq<char>)
    requires
        pre_name(a) == pre_name(b),
    ensures
        a == b,
{
    let n = "pre/"@.len() as int;
    assert(pre_name(a).skip(n) =~= a);
    assert(pre_name(b).skip(n) =~= b);
}

/// Where the tables of the permutation argument of trace `k` stand among those of the first `n`.
proof fn lemma_permutation_place(
    chips: Seq<ChipView>,
    order: Seq<(Seq<char>, nat)>,
    main: Seq<TraceView>,
    pre: Seq<TraceView>,
    alpha: BBExt,
    beta: BBExt,
    k: int,
    n: nat,
) -> (j: int)
    requires
        0 <= k < n,
        counts(order, k),
        all_permutation_tables(chips, order, main, pre, alpha, beta, n) is Ok,
        permutation_tables(
            chips,
            order[k].0,
            companion_of(pre, order[k].0),
            main[order[k].1 as int].trace,
            alpha,
            beta,
        ) matches Ok(t) && t.len() == 2,
    ensures
        ({
            let perms = all_permutation_tables(chips, order, main, pre, alpha, beta, n)->Ok_0;
            let t = permutation_tables(
                chips,
                order[k].0,
                companion_of(pre, order[k].0),
                main[order[k].1 as int].trace,
                alpha,
                beta,
            )->Ok_0;
            &&& 0 <= j
            &&& j + 1 < perms.len()
            &&& perms[j] == t[0]
            &&& perms[j + 1] == t[1]
        }),
    decreases n,
{
    let before = all_permutation_tables(chips, order, main, pre, alpha, beta, (n - 1) as nat);
    if k == n - 1 {
        before->Ok_0.len() as int
    } else {
        lemma_permutation_place(chips, order, main, pre, alpha, beta, k, (n - 1) as nat)
    }
}

/// The tables of the permutation argument have names of their own.
proof fn lemma_permutation_names(
    chips: Seq<ChipView>,
    order: Seq<(Seq<char>, nat)>,
    main: Seq<TraceView>,
    pre: Seq<TraceView>,
    alpha: BBExt,
    beta: BBExt,
    n: nat,
)
    ensures
        all_permutation_tables(chips, order, main, pre, alpha, beta, n) matches Ok(perms)
            ==> forall|j: int|
            0 <= j < perms.len() ==> has_third_letter((#[trigger] perms[j]).name, 'r'),
    decreases n,
{
    if n > 0 {
        lemma_permutation_names(chips, order, main, pre, alpha, beta, (n - 1) as nat);
        lemma_third_letters(order[n - 1].0);
    }
}

/// A trace that was written as a table is served row by row.
proof fn lemma_written_trace(name: Seq<char>, m: MatrixView)
    requires
        m.width <= u32::MAX,
        m.height() <= u32::MAX,
    ensures
        written_model(trace_table(name, m)).rows == m.height(),
        written_model(trace_table(name, m)).cols == m.width,
        all_readable(written_model(trace_table(name, m))),
        forall|i: int|
            0 <= i < m.height() ==> written_model(trace_table(name, m)).data[i] == #[trigger] m.row(
                i,
            ),
{
}

/// The height of a matrix that can be committed to is counted with 32 bits.
proof fn lemma_height(m: MatrixView)
    requires
        committable(m),
    ensures
        0 < m.height() <= u32::MAX,
{
    let k = choose|k: nat| k <= MAX_LOG_HEIGHT && m.height() == #[trigger] pow2(k);
    vstd::arithmetic::power2::lemma2_to64();
    vstd::arithmetic::power2::lemma_pow2_pos(k);
    if k < 25 {
        vstd::arithmetic::power2::lemma_pow2_strictly_increases(k, 25);
    }
}

/// Traces of all chips, narrow enough to be written, none of which is named like the preprocessed
/// trace of a chip.
pub open spec fn covers(chips: Seq<ChipView>, main: Seq<TraceView>, pre: Seq<TraceView>) -> bool {
    &&& order_of(Seq::empty(), main).map_values(|x: (Seq<char>, nat)| x.0) == trace_names(chips)
    &&& forall|i: int| 0 <= i < main.len() ==> (#[trigger] main[i]).trace.width <= u32::MAX
    &&& forall|i: int| 0 <= i < pre.len() ==> (#[trigger] pre[i]).trace.width <= u32::MAX
    &&& forall|i: int, c: int|
        0 <= i < main.len() && 0 <= c < chips.len() ==> (#[trigger] main[i]).name != pre_name(
            (#[trigger] chips[c]).name,
        )
}

/// The sizes that a chip states are those of its interactions, and it takes part in the local
/// argument alone.
pub open spec fn states_its_sizes(chip: ChipView) -> bool {
    &&& chip.commits_locally
    &&& chip.batch_size <= u32::MAX
    &&& chip.permutation_width == trace_width(chip)
}

/// The tables of an export, written as a container.
spec fn is_export(
    list: Seq<MetaView>,
    chips: Seq<ChipView>,
    first: Seq<u32>,
    main: Seq<TraceView>,
    pre: Seq<TraceView>,
    alpha: BBExt,
    beta: BBExt,
) -> bool {
    let order = order_of(Seq::empty(), main);
    &&& all_permutation_tables(chips, order, main, pre, alpha, beta, order.len()) matches Ok(perms)
        && list == seq![
        row_table("public_values"@, first),
        row_table("perm_challenges"@, challenge_row(alpha, beta)),
    ] + tables_in_order(order_of("pre/"@, pre), pre) + tables_in_order(order, main) + perms
    &&& names_differ(list)
    &&& write_tables(list).1 is None
    &&& covers(chips, main, pre)
    &&& forall|i: int| 0 <= i < main.len() ==> committable((#[trigger] main[i]).trace)
    &&& exported_arguments_hold(chips, order, main, pre, alpha, beta, order.len())
}

/// The tables that the container of an export serves.
spec fn served(list: Seq<MetaView>) -> Map<Seq<char>, TableModel> {
    container_tables(write_tables(list).0, infos_of(list))
}

/// Each table of an export is served.
proof fn lemma_served(list: Seq<MetaView>, j: int)
    requires
        names_differ(list),
        write_tables(list).1 is None,
        0 <= j < list.len(),
    ensures
        served(list).contains_key(list[j].name),
        served(list)[list[j].name] == written_model(list[j]),
{
    law_written_tables_are_served(list, j);
}

/// The place of main trace `k` of an export in its list.
spec fn main_place(pre: Seq<TraceView>, k: int) -> int {
    2 + pre.len() + k
}

/// What stands where in the list of an export.
proof fn lemma_places(
    list: Seq<MetaView>,
    chips: Seq<ChipView>,
    first: Seq<u32>,
    main: Seq<TraceView>,
    pre: Seq<TraceView>,
    alpha: BBExt,
    beta: BBExt,
)
    requires
        is_export(list, chips, first, main, pre, alpha, beta),
    ensures
        ({
            let order = order_of(Seq::empty(), main);
            let pre_order = order_of("pre/"@, pre);
            let perms = all_permutation_tables(
                chips,
                order,
                main,
                pre,
                alpha,
                beta,
                order.len(),
            )->Ok_0;
            &&& order.len() == main.len()
            &&& pre_order.len() == pre.len()
            &&& list.len() == main_place(pre, main.len() as int) + perms.len()
            &&& list[0].name == "public_values"@
            &&& list[1].name == "perm_challenges"@
            &&& forall|k: int|
                0 <= k < pre.len() ==> list[2 + k] == trace_table(
                    (#[trigger] pre_order[k]).0,
                    pre[pre_order[k].1 as int].trace,
                )
            &&& forall|k: int|
                0 <= k < main.len() ==> list[main_place(pre, k)] == trace_table(
                    (#[trigger] order[k]).0,
                    main[order[k].1 as int].trace,
                )
            &&& forall|k: int|
                0 <= k < perms.len() ==> list[main_place(pre, main.len() + k)]
                    == #[trigger] perms[k]
        }),
{
    let order = order_of(Seq::empty(), main);
    let pre_order = order_of("pre/"@, pre);
    lemma_sorted_by_name(
        Seq::new(main.len(), |i: int| (Seq::<char>::empty() + main[i].name, i as nat)),
    );
    lemma_sorted_by_name(Seq::new(pre.len(), |i: int| ("pre/"@ + pre[i].name, i as nat)));
    let a = tables_in_order(pre_order, pre);
    let b = tables_in_order(order, main);
    assert(forall|k: int| 0 <= k < pre.len() ==> list[2 + k] == #[trigger] a[k]);
    assert(forall|k: int| 0 <= k < main.len() ==> list[main_place(pre, k)] == #[trigger] b[k]);
    assert forall|k: int| 0 <= k < pre.len() implies list[2 + k] == trace_table(
        (#[trigger] pre_order[k]).0,
        pre[pre_order[k].1 as int].trace,
    ) by {
        assert(list[2 + k] == a[k]);
    }
    assert forall|k: int| 0 <= k < main.len() implies list[main_place(pre, k)] == trace_table(
        (#[trigger] order[k]).0,
        main[order[k].1 as int].trace,
    ) by {
        assert(list[main_place(pre, k)] == b[k]);
    }
}

/// The main traces of an export keep their names and are all different.
proof fn lemma_order(
    list: Seq<MetaView>,
    chips: Seq<ChipView>,
    first: Seq<u32>,
    main: Seq<TraceView>,
    pre: Seq<TraceView>,
    alpha: BBExt,
    beta: BBExt,
)
    requires
        is_export(list, chips, first, main, pre, alpha, beta),
    ensures
        ({
            let order = order_of(Seq::empty(), main);
            &&& forall|k: int|
                0 <= k < order.len() ==> (#[trigger] order[k]).1 < main.len() && order[k].0
                    == main[order[k].1 as int].name
            &&& forall|j: int, k: int|
                0 <= j < k < order.len() ==> (#[trigger] order[j]).0 != (#[trigger] order[k]).0
        }),
{
    let order = order_of(Seq::empty(), main);
    let placed = Seq::new(main.len(), |i: int| (Seq::<char>::empty() + main[i].name, i as nat));
    lemma_places(list, chips, first, main, pre, alpha, beta);
    assert forall|k: int| 0 <= k < order.len() implies (#[trigger] order[k]).1 < main.len()
        && order[k].0 == main[order[k].1 as int].name by {
        lemma_same_members(placed, order[k]);
        assert(order.contains(order[k]));
        let i = choose|i: int| 0 <= i < placed.len() && placed[i] == order[k];
        assert(Seq::<char>::empty() + main[i].name =~= main[i].name);
    }
    assert forall|j: int, k: int| 0 <= j < k < order.len() implies (#[trigger] order[j]).0 != (
    #[trigger] order[k]).0 by {
        assert(list[main_place(pre, j)].name != list[main_place(pre, k)].name);
    }
}

/// Every chip has a main trace of its name, and no other chip has that name.
proof fn lemma_chip_place(
    list: Seq<MetaView>,
    chips: Seq<ChipView>,
    first: Seq<u32>,
    main: Seq<TraceView>,
    pre: Seq<TraceView>,
    alpha: BBExt,
    beta: BBExt,
    c: int,
) -> (k: int)
    requires
        is_export(list, chips, first, main, pre, alpha, beta),
        0 <= c < chips.len(),
    ensures
        0 <= k < order_of(Seq::empty(), main).len(),
        order_of(Seq::empty(), main)[k].0 == chips[c].name,
        chip_named(chips, chips[c].name, 0) == Some(c as nat),
{
    let order = order_of(Seq::empty(), main);
    let names = trace_names(chips);
    let placed = placed_names(chips);
    let sorted = sorted_by_name(placed);
    lemma_order(list, chips, first, main, pre, alpha, beta);
    let firsts = order.map_values(|x: (Seq<char>, nat)| x.0);
    assert(firsts == names);
    assert(firsts.len() == order.len() && names.len() == sorted.len());
    lemma_same_members(placed, placed[c]);
    assert(placed.contains(placed[c]));
    let k = choose|k: int| 0 <= k < sorted.len() && sorted[k] == placed[c];
    assert(names[k] == sorted[k].0);
    assert(firsts[k] == order[k].0);
    assert forall|d: int| 0 <= d < c implies (#[trigger] chips[d]).name != chips[c].name by {
        lemma_same_members(placed, placed[d]);
        assert(placed.contains(placed[d]));
        let j = choose|j: int| 0 <= j < sorted.len() && sorted[j] == placed[d];
        assert(names[j] == sorted[j].0);
        assert(firsts[j] == order[j].0);
        assert(j != k);
    }
    lemma_chip_named(chips, c as nat, 0);
    k
}

/// The preprocessed table of a chip is served where the chip has a preprocessed trace.
proof fn lemma_companion_served(
    list: Seq<MetaView>,
    chips: Seq<ChipView>,
    first: Seq<u32>,
    main: Seq<TraceView>,
    pre: Seq<TraceView>,
    alpha: BBExt,
    beta: BBExt,
    c: int,
)
    requires
        is_export(list, chips, first, main, pre, alpha, beta),
        0 <= c < chips.len(),
    ensures
        match companion_of(pre, chips[c].name) {
            Some(m) => {
                &&& m.width <= u32::MAX
                &&& served(list).contains_key(pre_name(chips[c].name))
                &&& served(list)[pre_name(chips[c].name)] == written_model(
                    trace_table(pre_name(chips[c].name), m),
                )
            },
            None => !served(list).contains_key(pre_name(chips[c].name)),
        },
{
    let name = chips[c].name;
    let order = order_of(Seq::empty(), main);
    let pre_order = order_of("pre/"@, pre);
    let placed = Seq::new(pre.len(), |i: int| ("pre/"@ + pre[i].name, i as nat));
    lemma_places(list, chips, first, main, pre, alpha, beta);
    lemma_order(list, chips, first, main, pre, alpha, beta);
    lemma_trace_named(pre, name, pre.len());
    match trace_named(pre, name, pre.len()) {
        Some(i) => {
            lemma_same_members(placed, placed[i]);
            assert(placed.contains(placed[i]));
            let k = choose|k: int| 0 <= k < pre_order.len() && pre_order[k] == placed[i];
            assert(pre_order[k].0 == pre_name(name));
            lemma_served(list, 2 + k);
            assert(pre[i].trace.width <= u32::MAX);
        },
        None => {
            if served(list).contains_key(pre_name(name)) {
                let infos = infos_of(list);
                lemma_found_in_list(infos, pre_name(name), infos.len());
                let j = choose|j: int|
                    0 <= j < infos.len() && (#[trigger] infos[j]).name == pre_name(name);
                assert(list[j].name == pre_name(name));
                lemma_third_letters(name);
                if 2 <= j < 2 + pre.len() {
                    let k = j - 2;
                    assert(list[j].name == pre_order[k].0);
                    lemma_same_members(placed, pre_order[k]);
                    assert(pre_order.contains(pre_order[k]));
                    let i = choose|i: int| 0 <= i < placed.len() && placed[i] == pre_order[k];
                    lemma_prefix_drops(pre[i].name, name);
                } else if 2 + pre.len() <= j < main_place(pre, main.len() as int) {
                    let k = j - 2 - pre.len();
                    assert(list[main_place(pre, k)].name == order[k].0);
                    assert(main[order[k].1 as int].name != pre_name(chips[c].name));
                } else if j >= 2 {
                    lemma_permutation_names(chips, order, main, pre, alpha, beta, order.len());
                    let k = j - main_place(pre, main.len() as int);
                    let perms = all_permutation_tables(
                        chips,
                        order,
                        main,
                        pre,
                        alpha,
                        beta,
                        order.len(),
                    )->Ok_0;
                    assert(list[main_place(pre, main.len() + k)] == perms[k]);
                }
            }
        },
    }
}

/// The permutation table of a chip, as it is served: that of the permutation trace.
proof fn lemma_permutation_served(
    list: Seq<MetaView>,
    chips: Seq<ChipView>,
    first: Seq<u32>,
    main: Seq<TraceView>,
    pre: Seq<TraceView>,
    alpha: BBExt,
    beta: BBExt,
    c: int,
    k: int,
)
    requires
        is_export(list, chips, first, main, pre, alpha, beta),
        0 <= c < chips.len(),
        0 <= k < order_of(Seq::empty(), main).len(),
        order_of(Seq::empty(), main)[k].0 == chips[c].name,
        chip_named(chips, chips[c].name, 0) == Some(c as nat),
        chips[c].permutation_width > 0,
    ensures
        ({
            let chip = chips[c];
            let trace = main[order_of(Seq::empty(), main)[k].1 as int].trace;
            let companion = companion_of(pre, chip.name);
            let limbs = permutation_limbs(
                c as nat,
                companion,
                trace,
                limbs_of(alpha),
                limbs_of(beta),
            );
            let perm = served(list)[perm_name(chip.name)];
            let meta = served(list)[meta_name(chip.name)];
            &&& permutable(chip, companion, trace, alpha, beta)
            &&& has_trace_shape(chip, trace, limb_matrix(limbs))
            &&& argument_holds(chip, companion, trace, limb_matrix(limbs), alpha, beta)
            &&& served(list).contains_key(perm_name(chip.name))
            &&& all_readable(perm)
            &&& all_readable(meta)
            &&& perm.rows == (if trace_width(chip) == 0 {
                0
            } else {
                trace.height()
            })
            &&& trace_width(chip) > 0 ==> perm.cols == 4 * trace_width(chip) && perm.data
                == limb_matrix(limbs).rows()
            &&& served(list).contains_key(meta_name(chip.name))
            &&& meta.rows == 1
            &&& meta.cols == 2
            &&& meta.data[0][0] == chip.batch_size as u32
        }),
{
    let order = order_of(Seq::empty(), main);
    let chip = chips[c];
    lemma_places(list, chips, first, main, pre, alpha, beta);
    lemma_order(list, chips, first, main, pre, alpha, beta);
    let trace = main[order[k].1 as int].trace;
    let companion = companion_of(pre, chip.name);
    let limbs = permutation_limbs(c as nat, companion, trace, limbs_of(alpha), limbs_of(beta));
    assert(counts(order, k)) by {
        if k + 1 < order.len() {
            assert(order[k].0 != order[k + 1].0);
        }
    }
    assert(exported_argument_holds(chips, order[k].0, companion, trace, alpha, beta));
    let j = lemma_permutation_place(chips, order, main, pre, alpha, beta, k, order.len());
    let perms = all_permutation_tables(chips, order, main, pre, alpha, beta, order.len())->Ok_0;
    let at = main_place(pre, main.len() + j);
    assert(list[at] == perms[j]);
    assert(list[main_place(pre, main.len() + (j + 1))] == perms[j + 1]);
    lemma_served(list, at);
    lemma_served(list, at + 1);
    lemma_height(trace);
    let t = list[at];
    let w = 4 * trace_width(chip);
    let h = trace.height();
    let m = limb_matrix(limbs);
    if w > 0 {
        lemma_pieces(list);
        assert(t.values.len() == num_values(t));
        assert(t.cols == w) by (nonlinear_arith)
            requires
                h > 0,
                w * h == h * t.cols,
        ;
        assert(m.height() == h) by {
            vstd::arithmetic::div_mod::lemma_div_multiples_vanish(h as int, w as int);
        }
        assert(served(list)[perm_name(chip.name)].data =~= m.rows());
    }
}

/// The tables of a chip hold its traces: the main trace, the preprocessed trace where there is one,
/// and the permutation trace with its parameters.
spec fn holds_traces(
    tables: Map<Seq<char>, TableModel>,
    chip: ChipView,
    pre: Option<MatrixView>,
    main: MatrixView,
    perm: MatrixView,
) -> bool {
    let t = tables[chip.name];
    let p = tables[perm_name(chip.name)];
    let meta = tables[meta_name(chip.name)];
    &&& t.rows == main.height()
    &&& t.cols == main.width
    &&& all_readable(t)
    &&& forall|i: int| 0 <= i < main.height() ==> #[trigger] t.data[i] == main.row(i)
    &&& tables.contains_key(pre_name(chip.name)) == pre is Some
    &&& pre matches Some(m) ==> tables[pre_name(chip.name)].rows == m.height()
        && tables[pre_name(chip.name)].cols == m.width && all_readable(
        tables[pre_name(chip.name)],
    ) && forall|i: int|
        0 <= i < m.height() ==> #[trigger] tables[pre_name(chip.name)].data[i] == m.row(i)
    &&& tables.contains_key(perm_name(chip.name))
    &&& all_readable(p)
    &&& p.rows == (if trace_width(chip) == 0 {
        0
    } else {
        main.height()
    })
    &&& trace_width(chip) > 0 ==> p.cols == 4 * trace_width(chip) && p.data == perm.rows()
    &&& tables.contains_key(meta_name(chip.name))
    &&& meta.rows == 1
    &&& meta.cols == 2
    &&& all_readable(meta)
    &&& meta.data[0][0] == chip.batch_size as u32
}

/// Where the permutation trace of a chip satisfies the argument, so do the tables that hold it.
proof fn lemma_rows_satisfied(
    tables: Map<Seq<char>, TableModel>,
    chip: ChipView,
    pre: Option<MatrixView>,
    main: MatrixView,
    perm: MatrixView,
    alpha: BBExt,
    beta: BBExt,
)
    requires
        holds_traces(tables, chip, pre, main, perm),
        pre matches Some(m) ==> m.height() == main.height(),
        main.height() > 0,
        chip.batch_size > 0,
        has_trace_shape(chip, main, perm),
        argument_holds(chip, pre, main, perm, alpha, beta),
        tables.contains_key(chip.name),
        chip.permutation_width > 0,
        permutation_error(tables, chip) is None,
    ensures
        emits_zeros(chip_outcome(tables, chip, alpha, beta).trace),
        interactions_error(tables, chip) is None ==> chip_outcome(
            tables,
            chip,
            alpha,
            beta,
        ).error is None,
{
    let entries = ceil_div(chip.interactions.len(), chip.batch_size);
    let steps = permutation_steps(tables, chip, alpha, beta);
    assert(perm.height() == main.height()) by {
        vstd::arithmetic::div_mod::lemma_div_multiples_vanish(
            main.height() as int,
            perm.width as int,
        );
    }
    assert forall|i: int| 0 <= i < steps.len() implies emits_zeros((#[trigger] steps[i]).trace) && (
    interactions_error(tables, chip) is None ==> steps[i].error is None) by {
        assert(tables[chip.name].readable[i] && tables[perm_name(chip.name)].readable[i]);
        if let Some(m) = pre {
            assert(tables[pre_name(chip.name)].readable[i]);
        }
        if interactions_error(tables, chip) is None {
            assert(tables[chip.name].data[i] == main.row(i));
            assert(pre_row(tables, chip.name, i) =~= companion_row(pre, i));
            assert(tables[perm_name(chip.name)].data[i] == perm.row(i));
            assert(permutation_row(tables, chip, alpha, beta, i) == zeros(entries + 1));
        }
    }
    lemma_sequence_zeros(steps, steps.len());
}

/// Tables that hold the traces of a chip have the shape that the walk asks for.
proof fn lemma_shapes_satisfied(
    tables: Map<Seq<char>, TableModel>,
    chip: ChipView,
    pre: Option<MatrixView>,
    main: MatrixView,
    perm: MatrixView,
    alpha: BBExt,
    beta: BBExt,
)
    requires
        holds_traces(tables, chip, pre, main, perm),
        permutable(chip, pre, main, alpha, beta),
        chip.permutation_width > 0,
        states_its_sizes(chip),
    ensures
        permutation_error(tables, chip) is None,
        interactions_error(tables, chip) is None,
{
    let w = trace_width(chip);
    assert((4 * w) % 4 == 0 && (4 * w) / 4 == w);
    assert(pre_cols(tables, chip.name) == companion_width(pre));
}

/// The walk finds nothing wrong with the permutation argument of a chip of an export.
proof fn lemma_chip_satisfied(
    list: Seq<MetaView>,
    chips: Seq<ChipView>,
    first: Seq<u32>,
    main: Seq<TraceView>,
    pre: Seq<TraceView>,
    alpha: BBExt,
    beta: BBExt,
    c: int,
)
    requires
        is_export(list, chips, first, main, pre, alpha, beta),
        0 <= c < chips.len(),
    ensures
        emits_zeros(chip_outcome(served(list), chips[c], alpha, beta).trace),
        states_its_sizes(chips[c]) ==> chip_outcome(
            served(list),
            chips[c],
            alpha,
            beta,
        ).error is None,
{
    let tables = served(list);
    let chip = chips[c];
    let order = order_of(Seq::empty(), main);
    if chip.permutation_width > 0 {
        let k = lemma_chip_place(list, chips, first, main, pre, alpha, beta, c);
        let trace = main[order[k].1 as int].trace;
        let companion = companion_of(pre, chip.name);
        let limbs = permutation_limbs(c as nat, companion, trace, limbs_of(alpha), limbs_of(beta));
        let perm = limb_matrix(limbs);
        lemma_holds_traces(list, chips, first, main, pre, alpha, beta, c, k);
        if permutation_error(tables, chip) is None {
            lemma_rows_satisfied(tables, chip, companion, trace, perm, alpha, beta);
        }
        if states_its_sizes(chip) {
            lemma_shapes_satisfied(tables, chip, companion, trace, perm, alpha, beta);
        }
    }
}

/// The tables of an export hold the traces of each chip.
proof fn lemma_holds_traces(
    list: Seq<MetaView>,
    chips: Seq<ChipView>,
    first: Seq<u32>,
    main: Seq<TraceView>,
    pre: Seq<TraceView>,
    alpha: BBExt,
    beta: BBExt,
    c: int,
    k: int,
)
    requires
        is_export(list, chips, first, main, pre, alpha, beta),
        0 <= c < chips.len(),
        0 <= k < order_of(Seq::empty(), main).len(),
        order_of(Seq::empty(), main)[k].0 == chips[c].name,
        chip_named(chips, chips[c].name, 0) == Some(c as nat),
        chips[c].permutation_width > 0,
    ensures
        ({
            let trace = main[order_of(Seq::empty(), main)[k].1 as int].trace;
            let companion = companion_of(pre, chips[c].name);
            let perm = limb_matrix(
                permutation_limbs(c as nat, companion, trace, limbs_of(alpha), limbs_of(beta)),
            );
            &&& permutable(chips[c], companion, trace, alpha, beta)
            &&& has_trace_shape(chips[c], trace, perm)
            &&& argument_holds(chips[c], companion, trace, perm, alpha, beta)
            &&& served(list).contains_key(chips[c].name)
            &&& holds_traces(served(list), chips[c], companion, trace, perm)
        }),
{
    let order = order_of(Seq::empty(), main);
    let chip = chips[c];
    lemma_places(list, chips, first, main, pre, alpha, beta);
    lemma_order(list, chips, first, main, pre, alpha, beta);
    let trace = main[order[k].1 as int].trace;
    let companion = companion_of(pre, chip.name);
    lemma_served(list, main_place(pre, k));
    lemma_height(trace);
    lemma_written_trace(chip.name, trace);
    lemma_companion_served(list, chips, first, main, pre, alpha, beta, c);
    lemma_permutation_served(list, chips, first, main, pre, alpha, beta, c, k);
    if let Some(m) = companion {
        lemma_written_trace(pre_name(chip.name), m);
    }
}

/// What is exported satisfies the permutation argument. Let tables be exported for the traces of all
/// chips, written as a container and served from it. Then every residual that walking the permutation
/// argument emits is zero; and where all chips state the sizes of their interactions, the walk finds
/// no error either. That the exported permutation traces satisfy the argument is what exporting
/// ensures of them.
pub proof fn law_export_satisfies_argument(
    public_values: Seq<u32>,
    main: Seq<TraceView>,
    pre: Seq<TraceView>,
    list: Seq<MetaView>,
)
    requires
        exported(public_values, main, pre) == Ok::<Seq<MetaView>, ExportErrorView>(list),
        arguments_hold(public_values, main, pre),
        names_differ(list),
        write_tables(list).1 is None,
        covers(shrink_chips_model(), main, pre),
    ensures
        ({
            let tables = container_tables(write_tables(list).0, infos_of(list));
            let outcome = permutation_outcome(tables, shrink_chips_model());
            &&& emits_zeros(outcome.trace)
            &&& (forall|c: int|
                0 <= c < shrink_chips_model().len() ==> states_its_sizes(
                    #[trigger] shrink_chips_model()[c],
                )) ==> outcome.error is None
        }),
{
    let chips = shrink_chips_model();
    let tables = served(list);
    let order = order_of(Seq::empty(), main);
    let traces = in_order(order, main);
    let (alpha, beta) = challenges(public_values, traces);
    let first = public_values.take(NUM_PUBLIC_VALUES as int);
    let placed = Seq::new(main.len(), |i: int| (Seq::<char>::empty() + main[i].name, i as nat));
    law_export_is_bound(public_values, main, pre, list);
    lemma_no_bad_trace(traces, traces.len());
    lemma_sorted_by_name(placed);
    assert forall|i: int| 0 <= i < main.len() implies committable((#[trigger] main[i]).trace) by {
        lemma_same_members(placed, placed[i]);
        assert(placed.contains(placed[i]));
        let k = choose|k: int| 0 <= k < order.len() && order[k] == placed[i];
        assert(traces[k] == main[i].trace);
    }
    assert(is_export(list, chips, first, main, pre, alpha, beta));
    lemma_places(list, chips, first, main, pre, alpha, beta);
    lemma_served(list, 1);
    let row = challenge_row(alpha, beta);
    assert(written_model(row_table("perm_challenges"@, row)).data[0] =~= row);
    assert(e_block(row, 0) == alpha && e_block(row, 4) == beta);
    let (a, b) = challenges(
        tables["public_values"@].data[0],
        main_traces(tables, trace_names(chips)),
    );
    assert(e_block(challenge_row(a, b), 0) == a && e_block(challenge_row(a, b), 4) == b);
    assert((a, b) == (alpha, beta));
    let steps = chip_steps(tables, chips, alpha, beta);
    assert forall|c: int| 0 <= c < chips.len() implies emits_zeros((#[trigger] steps[c]).trace) by {
        lemma_chip_satisfied(list, chips, first, main, pre, alpha, beta, c);
    }
    if forall|c: int| 0 <= c < chips.len() ==> states_its_sizes(#[trigger] chips[c]) {
        assert forall|c: int| 0 <= c < chips.len() implies (#[trigger] steps[c]).error is None by {
            assert(states_its_sizes(chips[c]));
            lemma_chip_satisfied(list, chips, first, main, pre, alpha, beta, c);
        }
    }
    lemma_sequence_zeros(steps, chips.len());
    let bound = binding_trace(tables["perm_challenges"@].data[0], alpha, beta);
    assert(values_of(bound) == seq![0u32, 0u32]);
    assert forall|i: int| 0 <= i < bound.len() implies (#[trigger] bound[i]).value == 0 by {
        assert(values_of(bound)[i] == bound[i].value);
    }
    lemma_followed_zeros(emits(bound), chips_outcome(tables, chips, alpha, beta));
}

} // verus!
