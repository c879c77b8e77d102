//! The tables that are exported for a shrink proof: the public values, the challenges of the
//! transcript, the preprocessed and main traces, and the permutation traces.

use p3_baby_bear::BabyBear;
use p3_field::{AbstractExtensionField, AbstractField, PrimeField32};
use p3_matrix::dense::RowMajorMatrix;
use p3_matrix::Matrix;
use sp1_recursion_core::machine::RecursionAir;
use sp1_stark::baby_bear_poseidon2::BabyBearPoseidon2;
use sp1_stark::InnerChallenge;
use vstd::prelude::*;

use crate::babybear::{canonical, is_canonical_row};
use crate::extension::{e_base, e_block, ext_eq, ext_from_base_u32, BBExt};
use crate::logup::{accumulates, argument_holds, has_trace_shape, law_accumulated_argument_holds};
use crate::machine::{
    chips_view, shrink_chips, shrink_chips_model, ChipInfo, ChipView, NUM_SHRINK_CHIPS,
};
use crate::matrix::{lemma_rows_canonical, MatrixView, RowMatrix};
use crate::names::{lemma_sorted_by_name, named_view, sort_by_name, sorted_by_name};
use crate::permutation::{
    chip_fits, companion_row, eval_fingerprint, fingerprint, is_chip_supported, meta_name,
    perm_name,
};
use crate::pvor::writer::{
    header_len, metas_view, write_tables, write_u32_tables_streaming, MetaView, TableMeta, WriteError,
};
use crate::text::{concat_str, str_eq};
use crate::transcript::{
    challenges, committable, derive_challenges, is_committable_height, matrices_view,
    NUM_PUBLIC_VALUES,
};

verus! {

/// A trace with the name of its chip.
#[derive(Debug)]
pub struct NamedTrace {
    pub name: String,
    pub trace: RowMatrix,
}

/// The mathematical reading of a [`NamedTrace`].
#[verifier::ext_equal]
pub struct TraceView {
    pub name: Seq<char>,
    pub trace: MatrixView,
}

impl View for NamedTrace {
    type V = TraceView;

    open spec fn view(&self) -> TraceView {
        TraceView { name: self.name@, trace: self.trace@ }
    }
}

/// The readings of a list of named traces.
pub open spec fn traces_view(list: Seq<NamedTrace>) -> Seq<TraceView> {
    list.map_values(|t: NamedTrace| t@)
}

/// A table to be written.
#[derive(Debug)]
pub struct ExportedTable {
    pub name: String,
    pub rows: u32,
    pub cols: u32,
    pub values: Vec<u32>,
}

impl View for ExportedTable {
    type V = MetaView;

    open spec fn view(&self) -> MetaView {
        MetaView { name: self.name@, rows: self.rows, cols: self.cols, values: self.values@ }
    }
}

/// The readings of a list of exported tables.
pub open spec fn tables_view(list: Seq<ExportedTable>) -> Seq<MetaView> {
    list.map_values(|t: ExportedTable| t@)
}

/// Why traces could not be exported. The variants name the chip, where there is one.
#[derive(Debug)]
pub enum ExportError {
    /// The public values are too few, or not all canonical.
    PublicValues,
    /// There is no main trace.
    NoTraces,
    /// A main trace cannot be committed to.
    Trace(String),
    /// The permutation trace of a chip cannot be generated: its traces do not go together, or a
    /// fingerprint is zero.
    Permutation(String),
}

/// The mathematical reading of an [`ExportError`].
pub enum ExportErrorView {
    PublicValues,
    NoTraces,
    Trace(Seq<char>),
    Permutation(Seq<char>),
}

impl View for ExportError {
    type V = ExportErrorView;

    open spec fn view(&self) -> ExportErrorView {
        match *self {
            ExportError::PublicValues => ExportErrorView::PublicValues,
            ExportError::NoTraces => ExportErrorView::NoTraces,
            ExportError::Trace(t) => ExportErrorView::Trace(t@),
            ExportError::Permutation(t) => ExportErrorView::Permutation(t@),
        }
    }
}

/// The width of a preprocessed trace, where there is one.
pub open spec fn companion_width(pre: Option<MatrixView>) -> nat {
    match pre {
        Some(m) => m.width,
        None => 0,
    }
}

/// No interaction of a chip has a fingerprint of zero on one of the first `n` rows.
pub open spec fn fingerprints_nonzero(
    chip: ChipView,
    pre: Option<MatrixView>,
    main: MatrixView,
    alpha: BBExt,
    beta: BBExt,
    n: nat,
) -> bool {
    forall|row: int, i: int|
        0 <= row < n && 0 <= i < chip.interactions.len() ==> #[trigger] fingerprint(
            chip.interactions[i],
            companion_row(pre, row),
            main.row(row),
            alpha,
            beta,
            chip.interactions[i].values.len(),
        ) != e_base(0)
}

/// A trace of whole rows of canonical values.
pub open spec fn sound(m: MatrixView) -> bool {
    m.width > 0 && m.values.len() == m.width * m.height() && canonical(m.values)
}

/// The permutation trace of a chip can be generated.
pub open spec fn permutable(
    chip: ChipView,
    pre: Option<MatrixView>,
    main: MatrixView,
    alpha: BBExt,
    beta: BBExt,
) -> bool {
    &&& main.height() > 0
    &&& sound(main)
    &&& pre matches Some(m) ==> sound(m) && m.height() == main.height()
    &&& chip_fits(chip, companion_width(pre), main.width)
    &&& fingerprints_nonzero(chip, pre, main, alpha, beta, main.height())
}

/// The permutation trace of chip number `chip` of the shrink machine: its limbs row by row, its width
/// in extension elements, and its height.
pub uninterp spec fn permutation_limbs(chip: nat, pre: Option<MatrixView>, main: MatrixView, alpha: Seq<u32>, beta: Seq<u32>) -> (Seq<u32>, nat, nat);

/// The limbs of an extension element.
pub open spec fn limbs_of(e: BBExt) -> Seq<u32> {
    seq![e.c0, e.c1, e.c2, e.c3]
}

/// The reading of an optional matrix.
pub open spec fn companion_view(pre: Option<&RowMatrix>) -> Option<MatrixView> {
    match pre {
        Some(m) => Some(m@),
        None => None,
    }
}

/// A permutation trace as a matrix of limbs.
pub open spec fn limb_matrix(limbs: (Seq<u32>, nat, nat)) -> MatrixView {
    MatrixView { values: limbs.0, width: 4 * limbs.1 }
}

/// Calls `generate_permutation_trace` of `sp1_stark` on chip number `i` of the shrink machine, with
/// its preprocessed and main traces and the limbs of the two challenges. The result is the trace that
/// the call returns, each extension element written as its four canonical limbs. The trace has an
/// entry for each batch of interactions, which is the sum of their multiplicities, negative for
/// receives, divided by their fingerprints; and last in each row the sum of all entries up to that
/// row. The trace of a chip without interactions is empty. The configuration that the machine is built
/// with parses the environment variable `FRI_QUERIES` where it is set, and panics where that is no
/// number; the number has no influence on the trace.
#[verifier::external_body]
pub(crate) fn generate_permutation(
    i: usize,
    pre: Option<&RowMatrix>,
    main: &RowMatrix,
    alpha: [u32; 4],
    beta: [u32; 4],
) -> (r: (Vec<u32>, usize, usize))
    requires
        i < NUM_SHRINK_CHIPS,
        canonical(alpha@),
        canonical(beta@),
        permutable(
            shrink_chips_model()[i as int],
            companion_view(pre),
            main@,
            e_block(alpha@, 0),
            e_block(beta@, 0),
        ),
    ensures
        (r.0@, r.1 as nat, r.2 as nat) == permutation_limbs(
            i as nat,
            companion_view(pre),
            main@,
            alpha@,
            beta@,
        ),
        r.2 == (if r.1 == 0 {
            0
        } else {
            main@.height()
        }),
        has_trace_shape(
            shrink_chips_model()[i as int],
            main@,
            limb_matrix((r.0@, r.1 as nat, r.2 as nat)),
        ),
        accumulates(
            shrink_chips_model()[i as int],
            companion_view(pre),
            main@,
            limb_matrix((r.0@, r.1 as nat, r.2 as nat)),
            e_block(alpha@, 0),
            e_block(beta@, 0),
        ),
{
    let machine = RecursionAir::<BabyBear, 3>::shrink_machine(BabyBearPoseidon2::compressed());
    let matrix = |m: &RowMatrix| RowMajorMatrix::new(
        m.values.iter().copied().map(BabyBear::from_canonical_u32).collect(), m.width);
    let challenges = [alpha, beta].map(
        |e| InnerChallenge::from_base_slice(&e.map(BabyBear::from_canonical_u32)));
    let (t, _) = machine.chips()[i].generate_permutation_trace(
        pre.map(matrix).as_ref(), &matrix(main), &challenges);
    let limbs = t.values.iter().flat_map(
        |e| <InnerChallenge as AbstractExtensionField<BabyBear>>::as_base_slice(e));
    (limbs.map(|x| x.as_canonical_u32()).collect(), t.width(), t.height())
}

/// A trace as a table.
pub open spec fn trace_table(name: Seq<char>, m: MatrixView) -> MetaView {
    MetaView { name, rows: m.height() as u32, cols: m.width as u32, values: m.values }
}

/// A table of one row.
pub open spec fn row_table(name: Seq<char>, values: Seq<u32>) -> MetaView {
    MetaView { name, rows: 1, cols: values.len() as u32, values }
}

/// The limbs of the challenges.
pub open spec fn challenge_row(alpha: BBExt, beta: BBExt) -> Seq<u32> {
    seq![alpha.c0, alpha.c1, alpha.c2, alpha.c3, beta.c0, beta.c1, beta.c2, beta.c3]
}

/// The names of traces behind a prefix, with their places, in the order of the names.
pub open spec fn order_of(prefix: Seq<char>, traces: Seq<TraceView>) -> Seq<(Seq<char>, nat)> {
    sorted_by_name(Seq::new(traces.len(), |i: int| (prefix + traces[i].name, i as nat)))
}

/// The matrices of traces in a given order.
pub open spec fn in_order(order: Seq<(Seq<char>, nat)>, traces: Seq<TraceView>) -> Seq<MatrixView> {
    order.map_values(|x: (Seq<char>, nat)| traces[x.1 as int].trace)
}

/// The tables of traces in a given order.
pub open spec fn tables_in_order(order: Seq<(Seq<char>, nat)>, traces: Seq<TraceView>) -> Seq<
    MetaView,
> {
    order.map_values(|x: (Seq<char>, nat)| trace_table(x.0, traces[x.1 as int].trace))
}

/// The first of the first `n` traces that cannot be committed to.
pub open spec fn first_bad_trace(traces: Seq<MatrixView>, n: nat) -> Option<nat>
    decreases n,
{
    if n == 0 {
        None
    } else {
        let before = first_bad_trace(traces, (n - 1) as nat);
        if before is Some {
            before
        } else if !committable(traces[n - 1]) {
            Some((n - 1) as nat)
        } else {
            None
        }
    }
}

/// The first of the chips from number `i` on that has that name.
pub open spec fn chip_named(chips: Seq<ChipView>, name: Seq<char>, i: nat) -> Option<nat>
    decreases chips.len() - i,
{
    if i >= chips.len() {
        None
    } else if chips[i as int].name == name {
        Some(i)
    } else {
        chip_named(chips, name, i + 1)
    }
}

/// The last of the first `n` traces of that name.
pub open spec fn trace_named(traces: Seq<TraceView>, name: Seq<char>, n: nat) -> Option<int>
    decreases n,
{
    if n == 0 {
        None
    } else if traces[n - 1].name == name {
        Some(n - 1)
    } else {
        trace_named(traces, name, (n - 1) as nat)
    }
}

/// The preprocessed trace of a chip.
pub open spec fn companion_of(pre: Seq<TraceView>, name: Seq<char>) -> Option<MatrixView> {
    match trace_named(pre, name, pre.len()) {
        Some(i) => Some(pre[i].trace),
        None => None,
    }
}

/// What is exported of the permutation argument of the trace of that name: the permutation trace and
/// its parameters, and nothing for a trace that belongs to no chip with interactions.
pub open spec fn permutation_tables(
    chips: Seq<ChipView>,
    name: Seq<char>,
    pre: Option<MatrixView>,
    main: MatrixView,
    alpha: BBExt,
    beta: BBExt,
) -> Result<Seq<MetaView>, ExportErrorView> {
    match chip_named(chips, name, 0) {
        Some(c) => {
            let chip = chips[c as int];
            let (values, width, height) = permutation_limbs(
                c,
                pre,
                main,
                limbs_of(alpha),
                limbs_of(beta),
            );
            if chip.permutation_width == 0 {
                Ok(Seq::empty())
            } else if !permutable(chip, pre, main, alpha, beta) {
                Err(ExportErrorView::Permutation(name))
            } else {
                Ok(
                    seq![
                        MetaView {
                            name: perm_name(name),
                            rows: height as u32,
                            cols: (width * 4) as u32,
                            values,
                        },
                        row_table(
                            meta_name(name),
                            seq![chip.batch_size as u32, chip.num_interactions as u32],
                        ),
                    ],
                )
            }
        },
        None => Ok(Seq::empty()),
    }
}

/// Of several traces of the same name the last one counts.
pub open spec fn counts(order: Seq<(Seq<char>, nat)>, k: int) -> bool {
    k + 1 >= order.len() || order[k + 1].0 != order[k].0
}

/// What is exported of the permutation argument of the first `n` traces.
pub open spec fn all_permutation_tables(
    chips: Seq<ChipView>,
    order: Seq<(Seq<char>, nat)>,
    main: Seq<TraceView>,
    pre: Seq<TraceView>,
    alpha: BBExt,
    beta: BBExt,
    n: nat,
) -> Result<Seq<MetaView>, ExportErrorView>
    decreases n,
{
    if n == 0 {
        Ok(Seq::empty())
    } else {
        match all_permutation_tables(chips, order, main, pre, alpha, beta, (n - 1) as nat) {
            Err(e) => Err(e),
            Ok(before) => {
                let (name, i) = order[n - 1];
                if counts(order, n - 1) {
                    match permutation_tables(
                        chips,
                        name,
                        companion_of(pre, name),
                        main[i as int].trace,
                        alpha,
                        beta,
                    ) {
                        Ok(tables) => Ok(before + tables),
                        Err(e) => Err(e),
                    }
                } else {
                    Ok(before)
                }
            },
        }
    }
}

/// The permutation trace that is exported for the trace of that name has the shape that its chip asks
/// for, and satisfies the permutation argument.
pub open spec fn exported_argument_holds(
    chips: Seq<ChipView>,
    name: Seq<char>,
    pre: Option<MatrixView>,
    main: MatrixView,
    alpha: BBExt,
    beta: BBExt,
) -> bool {
    chip_named(chips, name, 0) matches Some(c) ==> chips[c as int].permutation_width > 0 ==> {
        let chip = chips[c as int];
        let limbs = permutation_limbs(c, pre, main, limbs_of(alpha), limbs_of(beta));
        &&& permutable(chip, pre, main, alpha, beta)
        &&& limbs.2 == (if limbs.1 == 0 {
            0
        } else {
            main.height()
        })
        &&& has_trace_shape(chip, main, limb_matrix(limbs))
        &&& argument_holds(chip, pre, main, limb_matrix(limbs), alpha, beta)
    }
}

/// The permutation traces that are exported for the first `n` traces satisfy the permutation argument.
pub open spec fn exported_arguments_hold(
    chips: Seq<ChipView>,
    order: Seq<(Seq<char>, nat)>,
    main: Seq<TraceView>,
    pre: Seq<TraceView>,
    alpha: BBExt,
    beta: BBExt,
    n: nat,
) -> bool {
    forall|k: int|
        0 <= k < n && counts(order, k) ==> exported_argument_holds(
            chips,
            (#[trigger] order[k]).0,
            companion_of(pre, order[k].0),
            main[order[k].1 as int].trace,
            alpha,
            beta,
        )
}

/// The tables that are exported, for given challenges.
pub open spec fn exported_with(
    chips: Seq<ChipView>,
    public_values: Seq<u32>,
    main: Seq<TraceView>,
    pre: Seq<TraceView>,
    alpha: BBExt,
    beta: BBExt,
) -> Result<Seq<MetaView>, ExportErrorView> {
    let order = order_of(Seq::empty(), main);
    match all_permutation_tables(chips, order, main, pre, alpha, beta, order.len()) {
        Err(e) => Err(e),
        Ok(perms) => Ok(
            seq![
                row_table("public_values"@, public_values.take(NUM_PUBLIC_VALUES as int)),
                row_table("perm_challenges"@, challenge_row(alpha, beta)),
            ] + tables_in_order(order_of("pre/"@, pre), pre) + tables_in_order(order, main) + perms,
        ),
    }
}

/// The tables that are exported, with the challenges of the transcript.
pub open spec fn exported(
    public_values: Seq<u32>,
    main: Seq<TraceView>,
    pre: Seq<TraceView>,
) -> Result<Seq<MetaView>, ExportErrorView> {
    let order = order_of(Seq::empty(), main);
    let traces = in_order(order, main);
    let (alpha, beta) = challenges(public_values, traces);
    if public_values.len() < NUM_PUBLIC_VALUES || !canonical(public_values) {
        Err(ExportErrorView::PublicValues)
    } else if main.len() == 0 {
        Err(ExportErrorView::NoTraces)
    } else if let Some(k) = first_bad_trace(traces, traces.len()) {
        Err(ExportErrorView::Trace(order[k as int].0))
    } else {
        exported_with(shrink_chips_model(), public_values, main, pre, alpha, beta)
    }
}

/// With the challenges of the transcript, all permutation traces that are exported satisfy the
/// permutation argument.
pub open spec fn arguments_hold(
    public_values: Seq<u32>,
    main: Seq<TraceView>,
    pre: Seq<TraceView>,
) -> bool {
    let order = order_of(Seq::empty(), main);
    let (alpha, beta) = challenges(public_values, in_order(order, main));
    exported_arguments_hold(shrink_chips_model(), order, main, pre, alpha, beta, main.len())
}

/// Copies values.
fn copy_values(values: &[u32]) -> (r: Vec<u32>)
    ensures
        r@ == values@,
{
    let mut r: Vec<u32> = Vec::new();
    let mut i: usize = 0;
    while i < values.len()
        invariant
            i <= values@.len(),
            r@ == values@.take(i as int),
        decreases values@.len() - i,
    {
        r.push(values[i]);
        assert(values@.take(i as int).push(values@[i as int]) =~= values@.take(i + 1));
        i += 1;
    }
    assert(values@.take(values@.len() as int) =~= values@);
    r
}

/// Tells whether a matrix consists of whole rows of canonical values.
fn is_sound(m: &RowMatrix) -> (r: bool)
    ensures
        r == sound(m@),
{
    if m.width == 0 {
        return false;
    }
    proof {
        vstd::arithmetic::div_mod::lemma_fundamental_div_mod(m.values@.len() as int, m.width as int);
    }
    m.values.len() % m.width == 0 && is_canonical_row(&m.values)
}

/// Tells whether a matrix can be committed to.
fn is_committable(m: &RowMatrix) -> (r: bool)
    ensures
        r == committable(m@),
{
    is_sound(m) && is_committable_height(m.height())
}

/// Tells whether all fingerprints of a row differ from zero.
fn is_row_nonzero(chip: &ChipInfo, pre: &[u32], main: &[u32], alpha: BBExt, beta: BBExt) -> (r: bool)
    requires
        chip_fits(chip@, pre@.len(), main@.len()),
        canonical(pre@),
        canonical(main@),
        alpha.wf(),
        beta.wf(),
    ensures
        r == (forall|i: int|
            0 <= i < chip@.interactions.len() ==> #[trigger] fingerprint(
                chip@.interactions[i],
                pre@,
                main@,
                alpha,
                beta,
                chip@.interactions[i].values.len(),
            ) != e_base(0)),
{
    let zero = ext_from_base_u32(0);
    let mut i: usize = 0;
    while i < chip.interactions.len()
        invariant
            i <= chip.interactions@.len(),
            zero == e_base(0),
            chip_fits(chip@, pre@.len(), main@.len()),
            canonical(pre@),
            canonical(main@),
            alpha.wf(),
            beta.wf(),
            forall|k: int|
                0 <= k < i ==> #[trigger] fingerprint(
                    chip@.interactions[k],
                    pre@,
                    main@,
                    alpha,
                    beta,
                    chip@.interactions[k].values.len(),
                ) != e_base(0),
        decreases chip.interactions@.len() - i,
    {
        assert(chip@.interactions[i as int] == chip.interactions@[i as int]@);
        let f = eval_fingerprint(&chip.interactions[i], pre, main, alpha, beta);
        if ext_eq(&f, &zero) {
            return false;
        }
        i += 1;
    }
    true
}

/// Tells whether the permutation trace of a chip can be generated.
fn is_permutable(
    chip: &ChipInfo,
    pre: Option<&RowMatrix>,
    main: &RowMatrix,
    alpha: BBExt,
    beta: BBExt,
) -> (r: bool)
    requires
        alpha.wf(),
        beta.wf(),
    ensures
        r == permutable(chip@, companion_view(pre), main@, alpha, beta),
{
    let ghost pre_view = companion_view(pre);
    let height: usize = main.height();
    if height == 0 || !is_sound(main) {
        return false;
    }
    let mut pre_width: usize = 0;
    if let Some(m) = pre {
        if !is_sound(m) || m.height() != height {
            return false;
        }
        pre_width = m.width;
    }
    if !is_chip_supported(chip, pre_width, main.width) {
        return false;
    }
    let mut row: usize = 0;
    while row < height
        invariant
            row <= height,
            height == main@.height(),
            alpha.wf(),
            beta.wf(),
            sound(main@),
            pre_view == companion_view(pre),
            pre matches Some(m) ==> sound(m@) && m@.height() == height,
            pre_width == companion_width(pre_view),
            chip_fits(chip@, pre_width as nat, main@.width),
            fingerprints_nonzero(chip@, pre_view, main@, alpha, beta, row as nat),
        decreases height - row,
    {
        let main_row = main.row(row);
        let pre_row = match pre {
            Some(m) => m.row(row),
            None => Vec::new(),
        };
        proof {
            lemma_rows_canonical(main@, row as int);
            if let Some(m) = pre {
                lemma_rows_canonical(m@, row as int);
            }
            assert(pre_row@ =~= companion_row(pre_view, row as int));
        }
        if !is_row_nonzero(chip, &pre_row, &main_row, alpha, beta) {
            return false;
        }
        row += 1;
    }
    true
}

/// Finds the order of traces by name, behind a prefix.
fn order_traces(prefix: &str, traces: &[NamedTrace]) -> (r: Vec<(String, usize)>)
    ensures
        named_view(r@) == order_of(prefix@, traces_view(traces@)),
        r@.len() == traces@.len(),
        forall|i: int| 0 <= i < r@.len() ==> (#[trigger] r@[i]).1 < traces@.len(),
{
    let ghost view = traces_view(traces@);
    let mut names: Vec<(String, usize)> = Vec::new();
    let mut i: usize = 0;
    while i < traces.len()
        invariant
            i <= traces@.len(),
            names@.len() == i,
            view == traces_view(traces@),
            forall|k: int|
                0 <= k < i ==> (#[trigger] names@[k]).0@ == prefix@ + view[k].name && names@[k].1
                    == k,
        decreases traces@.len() - i,
    {
        assert(view[i as int] == traces@[i as int]@);
        names.push((concat_str(prefix, traces[i].name.as_str()), i));
        i += 1;
    }
    let ghost placed = Seq::new(view.len(), |i: int| (prefix@ + view[i].name, i as nat));
    assert(named_view(names@) =~= placed);
    let r = sort_by_name(names);
    proof {
        broadcast use vstd::seq_lib::group_to_multiset_ensures;

        lemma_sorted_by_name(placed);
        let sorted = named_view(r@);
        assert forall|k: int| 0 <= k < r@.len() implies (#[trigger] r@[k]).1 < traces@.len() by {
            assert(sorted[k].1 == r@[k].1);
            assert(sorted.contains(sorted[k]));
            assert(sorted.to_multiset().count(sorted[k]) > 0);
            assert(placed.to_multiset().count(sorted[k]) > 0);
            assert(placed.contains(sorted[k]));
        }
    }
    r
}

/// The matrices of traces in a given order.
fn matrices_in_order(order: &Vec<(String, usize)>, traces: &[NamedTrace]) -> (r: Vec<RowMatrix>)
    requires
        forall|i: int| 0 <= i < order@.len() ==> (#[trigger] order@[i]).1 < traces@.len(),
    ensures
        matrices_view(r@) == in_order(named_view(order@), traces_view(traces@)),
        r@.len() == order@.len(),
{
    let ghost want = in_order(named_view(order@), traces_view(traces@));
    let mut r: Vec<RowMatrix> = Vec::new();
    let mut i: usize = 0;
    while i < order.len()
        invariant
            i <= order@.len(),
            r@.len() == i,
            want == in_order(named_view(order@), traces_view(traces@)),
            forall|i: int| 0 <= i < order@.len() ==> (#[trigger] order@[i]).1 < traces@.len(),
            forall|k: int| 0 <= k < i ==> (#[trigger] r@[k])@ == want[k],
        decreases order@.len() - i,
    {
        let t = &traces[order[i].1];
        let m = RowMatrix { values: copy_values(&t.trace.values), width: t.trace.width };
        assert(order@[i as int].1 < traces@.len());
        assert(named_view(order@)[i as int].1 == order@[i as int].1);
        assert(traces_view(traces@)[order@[i as int].1 as int] == t@);
        assert(m@ =~= want[i as int]);
        r.push(m);
        i += 1;
    }
    assert(matrices_view(r@) =~= want);
    r
}

/// Appends the tables of traces in a given order.
fn push_tables(out: &mut Vec<ExportedTable>, order: &Vec<(String, usize)>, traces: &[NamedTrace])
    requires
        forall|i: int| 0 <= i < order@.len() ==> (#[trigger] order@[i]).1 < traces@.len(),
    ensures
        tables_view(final(out)@) == tables_view(old(out)@) + tables_in_order(
            named_view(order@),
            traces_view(traces@),
        ),
{
    let ghost start = tables_view(out@);
    let ghost want = tables_in_order(named_view(order@), traces_view(traces@));
    let mut i: usize = 0;
    assert(start + want.take(0) =~= tables_view(out@));
    while i < order.len()
        invariant
            i <= order@.len(),
            want == tables_in_order(named_view(order@), traces_view(traces@)),
            want.len() == order@.len(),
            forall|i: int| 0 <= i < order@.len() ==> (#[trigger] order@[i]).1 < traces@.len(),
            tables_view(out@) == start + want.take(i as int),
        decreases order@.len() - i,
    {
        let ghost before = out@;
        let m = &traces[order[i].1].trace;
        let t = ExportedTable {
            name: order[i].0.clone(),
            rows: m.height() as u32,
            cols: m.width as u32,
            values: copy_values(&m.values),
        };
        proof {
            assert(order@[i as int].1 < traces@.len());
            assert(named_view(order@)[i as int] == (
                order@[i as int].0@,
                order@[i as int].1 as nat,
            ));
            assert(traces_view(traces@)[order@[i as int].1 as int]
                == traces@[order@[i as int].1 as int]@);
            assert(t@ == want[i as int]);
            assert(tables_view(before.push(t)) =~= tables_view(before).push(t@));
            assert((start + want.take(i as int)).push(want[i as int]) =~= start + want.take(i + 1));
        }
        out.push(t);
        i += 1;
    }
    assert(want.take(want.len() as int) =~= want);
}

/// Finds the chip of that name.
fn find_chip(chips: &[ChipInfo], name: &str) -> (r: Option<usize>)
    ensures
        match r {
            Some(i) => i < chips@.len() && chip_named(chips_view(chips@), name@, 0) == Some(
                i as nat,
            ),
            None => chip_named(chips_view(chips@), name@, 0) is None,
        },
{
    let ghost view = chips_view(chips@);
    let mut i: usize = 0;
    while i < chips.len()
        invariant
            i <= chips@.len(),
            view == chips_view(chips@),
            chip_named(view, name@, 0) == chip_named(view, name@, i as nat),
        decreases chips@.len() - i,
    {
        assert(view[i as int] == chips@[i as int]@);
        if str_eq(chips[i].name.as_str(), name) {
            return Some(i);
        }
        i += 1;
    }
    None
}

/// Finds the preprocessed trace of a chip.
fn find_companion<'a>(pre: &'a [NamedTrace], name: &str) -> (r: Option<&'a RowMatrix>)
    ensures
        companion_view(r) == companion_of(traces_view(pre@), name@),
{
    let ghost view = traces_view(pre@);
    let mut i: usize = pre.len();
    while i > 0
        invariant
            i <= pre@.len(),
            view == traces_view(pre@),
            trace_named(view, name@, view.len()) == trace_named(view, name@, i as nat),
        decreases i,
    {
        assert(view[i - 1] == pre@[i - 1]@);
        if str_eq(pre[i - 1].name.as_str(), name) {
            return Some(&pre[i - 1].trace);
        }
        i -= 1;
    }
    None
}

/// Appends what is exported of the permutation argument of a trace.
fn push_permutation(
    out: &mut Vec<ExportedTable>,
    chips: &[ChipInfo],
    name: &str,
    pre: Option<&RowMatrix>,
    main: &RowMatrix,
    alpha: BBExt,
    beta: BBExt,
) -> (r: Result<(), ExportError>)
    requires
        chips_view(chips@) == shrink_chips_model(),
        alpha.wf(),
        beta.wf(),
    ensures
        match permutation_tables(
            shrink_chips_model(),
            name@,
            companion_view(pre),
            main@,
            alpha,
            beta,
        ) {
            Ok(tables) => r is Ok && tables_view(final(out)@) == tables_view(old(out)@) + tables,
            Err(e) => r is Err && r->Err_0@ == e,
        },
        r is Ok ==> exported_argument_holds(
            shrink_chips_model(),
            name@,
            companion_view(pre),
            main@,
            alpha,
            beta,
        ),
{
    let ghost start = tables_view(out@);
    assert(start + Seq::<MetaView>::empty() =~= start);
    let c: usize = match find_chip(chips, name) {
        Some(c) => c,
        None => {
            return Ok(());
        },
    };
    let chip = &chips[c];
    assert(shrink_chips_model()[c as int] == chip@) by {
        assert(chips_view(chips@)[c as int] == chip@);
    }
    if chip.permutation_width == 0 {
        return Ok(());
    }
    if !is_permutable(chip, pre, main, alpha, beta) {
        return Err(ExportError::Permutation(name.to_owned()));
    }
    assert(chips_view(chips@).len() == chips@.len());
    let alpha_limbs: [u32; 4] = [alpha.c0, alpha.c1, alpha.c2, alpha.c3];
    let beta_limbs: [u32; 4] = [beta.c0, beta.c1, beta.c2, beta.c3];
    proof {
        assert(alpha_limbs@ =~= limbs_of(alpha));
        assert(beta_limbs@ =~= limbs_of(beta));
        assert(e_block(alpha_limbs@, 0) == alpha);
        assert(e_block(beta_limbs@, 0) == beta);
    }
    let (values, width, height) = generate_permutation(c, pre, main, alpha_limbs, beta_limbs);
    proof {
        law_accumulated_argument_holds(
            chip@,
            companion_view(pre),
            main@,
            limb_matrix((values@, width as nat, height as nat)),
            alpha,
            beta,
        );
    }
    let cols: u32 = ((width as u64 % 0x4000_0000) * 4) as u32;
    let t = ExportedTable { name: concat_str("perm/", name), rows: height as u32, cols, values };
    let mut parameters: Vec<u32> = Vec::new();
    parameters.push(chip.batch_size as u32);
    parameters.push(chip.num_interactions as u32);
    let m = ExportedTable {
        name: concat_str("perm_meta/", name),
        rows: 1,
        cols: 2,
        values: parameters,
    };
    proof {
        lemma_low_bits(width);
        let a = tables_view(out@.push(t).push(m));
        assert(m@.values =~= seq![chip@.batch_size as u32, chip@.num_interactions as u32]);
        assert(a =~= start + seq![t@, m@]);
    }
    out.push(t);
    out.push(m);
    Ok(())
}

/// Appends what is exported of the permutation argument of all traces.
fn push_permutations(
    out: &mut Vec<ExportedTable>,
    order: &Vec<(String, usize)>,
    main: &[NamedTrace],
    pre: &[NamedTrace],
    alpha: BBExt,
    beta: BBExt,
) -> (r: Result<(), ExportError>)
    requires
        forall|i: int| 0 <= i < order@.len() ==> (#[trigger] order@[i]).1 < main@.len(),
        alpha.wf(),
        beta.wf(),
    ensures
        match all_permutation_tables(
            shrink_chips_model(),
            named_view(order@),
            traces_view(main@),
            traces_view(pre@),
            alpha,
            beta,
            order@.len(),
        ) {
            Ok(tables) => r is Ok && tables_view(final(out)@) == tables_view(old(out)@) + tables,
            Err(e) => r is Err && r->Err_0@ == e,
        },
        r is Ok ==> exported_arguments_hold(
            shrink_chips_model(),
            named_view(order@),
            traces_view(main@),
            traces_view(pre@),
            alpha,
            beta,
            order@.len(),
        ),
{
    let chips = shrink_chips();
    let ghost model = shrink_chips_model();
    let ghost start = tables_view(out@);
    let ghost names = named_view(order@);
    let ghost mains = traces_view(main@);
    let ghost pres = traces_view(pre@);
    let mut k: usize = 0;
    assert(start + Seq::<MetaView>::empty() =~= start);
    while k < order.len()
        invariant
            k <= order@.len(),
            names == named_view(order@),
            mains == traces_view(main@),
            pres == traces_view(pre@),
            names.len() == order@.len(),
            model == shrink_chips_model(),
            chips_view(chips@) == model,
            alpha.wf(),
            beta.wf(),
            forall|i: int| 0 <= i < order@.len() ==> (#[trigger] order@[i]).1 < main@.len(),
            all_permutation_tables(model, names, mains, pres, alpha, beta, k as nat) matches Ok(
                before,
            ) && tables_view(out@) == start + before,
            exported_arguments_hold(model, names, mains, pres, alpha, beta, k as nat),
        decreases order@.len() - k,
    {
        let ghost before = all_permutation_tables(
            model,
            names,
            mains,
            pres,
            alpha,
            beta,
            k as nat,
        )->Ok_0;
        proof {
            assert(order@[k as int].1 < main@.len());
            assert(names[k as int] == (order@[k as int].0@, order@[k as int].1 as nat));
            assert(mains[order@[k as int].1 as int] == main@[order@[k as int].1 as int]@);
            lemma_permutations_stop(
                model,
                names,
                mains,
                pres,
                alpha,
                beta,
                (k + 1) as nat,
                names.len(),
            );
        }
        let mut last = true;
        if k + 1 < order.len() {
            assert(names[k + 1].0 == order@[k + 1].0@);
            last = !str_eq(order[k + 1].0.as_str(), order[k].0.as_str());
        }
        assert(last == counts(names, k as int));
        if last {
            let name = order[k].0.as_str();
            let companion = find_companion(pre, name);
            let step = push_permutation(
                out,
                &chips,
                name,
                companion,
                &main[order[k].1].trace,
                alpha,
                beta,
            );
            if step.is_err() {
                return step;
            }
            proof {
                let tables = permutation_tables(
                    model,
                    name@,
                    companion_of(pres, name@),
                    mains[order@[k as int].1 as int].trace,
                    alpha,
                    beta,
                )->Ok_0;
                assert((start + before) + tables =~= start + (before + tables));
            }
        }
        k += 1;
    }
    Ok(())
}

/// An error among the first traces is the error of all of them.
proof fn lemma_permutations_stop(
    chips: Seq<ChipView>,
    order: Seq<(Seq<char>, nat)>,
    main: Seq<TraceView>,
    pre: Seq<TraceView>,
    alpha: BBExt,
    beta: BBExt,
    i: nat,
    n: nat,
)
    requires
        i <= n,
    ensures
        all_permutation_tables(chips, order, main, pre, alpha, beta, i) is Err
            ==> all_permutation_tables(chips, order, main, pre, alpha, beta, n)
            == all_permutation_tables(chips, order, main, pre, alpha, beta, i),
    decreases n - i,
{
    if i < n {
        lemma_permutations_stop(chips, order, main, pre, alpha, beta, i, (n - 1) as nat);
    }
}

/// Lists the tables to export, for given challenges.
pub fn export_with_challenges(
    public_values: &[u32],
    main: &[NamedTrace],
    pre: &[NamedTrace],
    alpha: BBExt,
    beta: BBExt,
) -> (r: Result<Vec<ExportedTable>, ExportError>)
    requires
        public_values@.len() >= NUM_PUBLIC_VALUES,
        alpha.wf(),
        beta.wf(),
    ensures
        match r {
            Ok(tables) => exported_with(
                shrink_chips_model(),
                public_values@,
                traces_view(main@),
                traces_view(pre@),
                alpha,
                beta,
            ) == Ok::<Seq<MetaView>, ExportErrorView>(tables_view(tables@)),
            Err(e) => exported_with(
                shrink_chips_model(),
                public_values@,
                traces_view(main@),
                traces_view(pre@),
                alpha,
                beta,
            ) == Err::<Seq<MetaView>, ExportErrorView>(e@),
        },
        r is Ok ==> exported_arguments_hold(
            shrink_chips_model(),
            order_of(Seq::empty(), traces_view(main@)),
            traces_view(main@),
            traces_view(pre@),
            alpha,
            beta,
            main@.len(),
        ),
{
    let mut observed: Vec<u32> = Vec::new();
    let mut i: usize = 0;
    while i < NUM_PUBLIC_VALUES
        invariant
            i <= NUM_PUBLIC_VALUES,
            public_values@.len() >= NUM_PUBLIC_VALUES,
            observed@ == public_values@.take(i as int),
        decreases NUM_PUBLIC_VALUES - i,
    {
        observed.push(public_values[i]);
        i += 1;
    }
    let limbs = vec![
        alpha.c0, alpha.c1, alpha.c2, alpha.c3, beta.c0, beta.c1, beta.c2, beta.c3,
    ];
    let pv_table = ExportedTable {
        name: "public_values".to_owned(),
        rows: 1,
        cols: NUM_PUBLIC_VALUES as u32,
        values: observed,
    };
    let challenge_table = ExportedTable {
        name: "perm_challenges".to_owned(),
        rows: 1,
        cols: 8,
        values: limbs,
    };
    let ghost first = row_table(
        "public_values"@,
        public_values@.take(NUM_PUBLIC_VALUES as int),
    );
    let ghost second = row_table("perm_challenges"@, challenge_row(alpha, beta));
    proof {
        assert(limbs@ =~= challenge_row(alpha, beta));
        assert(pv_table@ == first);
        assert(challenge_table@ == second);
    }
    let mut out: Vec<ExportedTable> = Vec::new();
    out.push(pv_table);
    out.push(challenge_table);
    assert(tables_view(out@) =~= seq![first, second]);
    let pre_order = order_traces("pre/", pre);
    let order = order_traces("", main);
    proof {
        reveal_strlit("");
        assert(""@ =~= Seq::<char>::empty());
    }
    push_tables(&mut out, &pre_order, pre);
    push_tables(&mut out, &order, main);
    match push_permutations(&mut out, &order, main, pre, alpha, beta) {
        Ok(_) => Ok(out),
        Err(e) => Err(e),
    }
}

/// Lists the tables to export for a shrink proof. The challenges are drawn from the transcript of the
/// public values and the main traces.
pub fn export_shrink_tables(public_values: &[u32], main: &[NamedTrace], pre: &[NamedTrace]) -> (r:
    Result<Vec<ExportedTable>, ExportError>)
    ensures
        match r {
            Ok(tables) => exported(public_values@, traces_view(main@), traces_view(pre@)) == Ok::<
                Seq<MetaView>,
                ExportErrorView,
            >(tables_view(tables@)),
            Err(e) => exported(public_values@, traces_view(main@), traces_view(pre@)) == Err::<
                Seq<MetaView>,
                ExportErrorView,
            >(e@),
        },
        r is Ok ==> arguments_hold(public_values@, traces_view(main@), traces_view(pre@)),
{
    if public_values.len() < NUM_PUBLIC_VALUES || !is_canonical_row(public_values) {
        return Err(ExportError::PublicValues);
    }
    if main.len() == 0 {
        return Err(ExportError::NoTraces);
    }
    let order = order_traces("", main);
    proof {
        reveal_strlit("");
        assert(""@ =~= Seq::<char>::empty());
    }
    let traces = matrices_in_order(&order, main);
    let ghost view = matrices_view(traces@);
    let mut k: usize = 0;
    while k < traces.len()
        invariant
            k <= traces@.len(),
            view == matrices_view(traces@),
            first_bad_trace(view, k as nat) is None,
            forall|i: int| 0 <= i < k ==> committable((#[trigger] traces@[i])@),
            traces@.len() == order@.len(),
            main@.len() > 0,
            public_values@.len() >= NUM_PUBLIC_VALUES,
            canonical(public_values@),
            named_view(order@) == order_of(Seq::empty(), traces_view(main@)),
            view == in_order(named_view(order@), traces_view(main@)),
        decreases traces@.len() - k,
    {
        proof {
            assert(view[k as int] == traces@[k as int]@);
            lemma_first_bad_trace(view, (k + 1) as nat, view.len());
            assert(named_view(order@)[k as int].0 == order@[k as int].0@);
        }
        if !is_committable(&traces[k]) {
            return Err(ExportError::Trace(order[k].0.clone()));
        }
        k += 1;
    }
    let (alpha, beta) = derive_challenges(public_values, &traces);
    export_with_challenges(public_values, main, pre, alpha, beta)
}

proof fn lemma_first_bad_trace(traces: Seq<MatrixView>, i: nat, n: nat)
    requires
        i <= n,
    ensures
        first_bad_trace(traces, i) is Some ==> first_bad_trace(traces, n) == first_bad_trace(
            traces,
            i,
        ),
    decreases n - i,
{
    if i < n {
        lemma_first_bad_trace(traces, i, (n - 1) as nat);
    }
}

/// Writes exported tables as a container.
pub fn write_exported(out: &mut Vec<u8>, tables: &[ExportedTable]) -> (r: Result<(), WriteError>)
    requires
        header_len(tables_view(tables@), tables@.len()) <= u64::MAX,
    ensures
        final(out)@ == old(out)@ + write_tables(tables_view(tables@)).0,
        match r {
            Ok(_) => write_tables(tables_view(tables@)).1 is None,
            Err(e) => write_tables(tables_view(tables@)).1 == Some(e@),
        },
{
    let mut metas: Vec<TableMeta<'_>> = Vec::new();
    let mut i: usize = 0;
    while i < tables.len()
        invariant
            i <= tables@.len(),
            metas@.len() == i,
            forall|k: int| 0 <= k < i ==> (#[trigger] metas@[k])@ == tables@[k]@,
        decreases tables@.len() - i,
    {
        let t = &tables[i];
        metas.push(
            TableMeta {
                name: t.name.as_str(),
                rows: t.rows,
                cols: t.cols,
                values_u32_le: t.values.as_slice(),
            },
        );
        i += 1;
    }
    assert(metas_view(metas@) =~= tables_view(tables@));
    write_u32_tables_streaming(out, &metas)
}

/// Multiplying by 4 and keeping 32 bits is keeping 30 bits and multiplying by 4.
proof fn lemma_low_bits(w: usize)
    ensures
        (w as nat * 4) as u32 == (w % 0x4000_0000) * 4,
{
    let q: int = (w as int) / 0x4000_0000;
    let rest: int = (w as int) % 0x4000_0000;
    let x: u128 = (w * 4) as u128;
    assert(x as u32 == x % 0x1_0000_0000u128) by (bit_vector);
}

} // verus!
