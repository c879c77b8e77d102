//! The permutation (LogUp) argument: each batch of interactions of a chip is summed up in one entry
//! of its permutation table, and the entries of all rows in a running sum.

use vstd::prelude::*;

use crate::babybear::{bb_add, bb_mul, bb_sub, canonical, f_add, f_mul, f_sub, BABYBEAR_P};
use crate::chips::{flag, residual};
use crate::extension::{
    e_add, e_base, e_block, e_mul, ext_add, ext_eq, ext_from_base_u32, ext_from_row, ext_mul, BBExt,
};
use crate::machine::{
    chips_view, ChipInfo, ChipView, ColumnView, InteractionView, SignedInteraction, VirtualColumn,
};
use crate::matrix::MatrixView;
use crate::residuals::{
    emits, fails, in_sequence, lemma_extend_empty, row_emissions, Outcome, ResidualLog, Section,
};
use crate::rows::{table_canonical, RowProvider, TableModel};
use crate::sizing::{ceil_div, div_ceil, lemma_ceil_div_least};
use crate::text::concat_str;
use crate::walk_error::{
    after_reading, lemma_sequence_start, lemma_sequence_step, ran, read_error, WalkError,
    WalkErrorView,
};

verus! {

/// `b^n` in the extension.
pub open spec fn e_pow(b: BBExt, n: nat) -> BBExt
    decreases n,
{
    if n == 0 {
        e_base(1)
    } else {
        e_mul(e_pow(b, (n - 1) as nat), b)
    }
}

/// The value of a column on a row, counting the first `n` weights.
pub open spec fn column_value(c: ColumnView, pre: Seq<u32>, main: Seq<u32>, n: nat) -> u32
    decreases n,
{
    if n == 0 {
        c.constant
    } else {
        let (in_main, k, weight) = c.weights[n - 1];
        let cell = if in_main {
            main[k as int]
        } else {
            pre[k as int]
        };
        f_add(column_value(c, pre, main, (n - 1) as nat), f_mul(cell, weight))
    }
}

/// A column refers to cells that rows of these widths have, and its numbers are canonical.
pub open spec fn column_fits(c: ColumnView, pre_cols: nat, main_cols: nat) -> bool {
    &&& c.constant < BABYBEAR_P
    &&& forall|i: int|
        0 <= i < c.weights.len() ==> {
            let (in_main, k, weight) = #[trigger] c.weights[i];
            &&& weight < BABYBEAR_P
            &&& k < (if in_main {
                main_cols
            } else {
                pre_cols
            })
        }
}

/// An interaction can be evaluated on rows of these widths.
pub open spec fn interaction_fits(x: InteractionView, pre_cols: nat, main_cols: nat) -> bool {
    &&& x.argument_index < BABYBEAR_P
    &&& column_fits(x.multiplicity, pre_cols, main_cols)
    &&& forall|i: int|
        0 <= i < x.values.len() ==> column_fits(#[trigger] x.values[i], pre_cols, main_cols)
}

/// The random linear combination that stands for an interaction on a row, counting the first `n`
/// of its values: `alpha + argument_index + beta * v_0 + beta^2 * v_1 + ...`.
pub open spec fn fingerprint(
    x: InteractionView,
    pre: Seq<u32>,
    main: Seq<u32>,
    alpha: BBExt,
    beta: BBExt,
    n: nat,
) -> BBExt
    decreases n,
{
    if n == 0 {
        e_add(alpha, e_base(x.argument_index as u32))
    } else {
        let c = x.values[n - 1];
        e_add(
            fingerprint(x, pre, main, alpha, beta, (n - 1) as nat),
            e_mul(e_pow(beta, n), e_base(column_value(c, pre, main, c.weights.len()))),
        )
    }
}

/// The multiplicity of an interaction on a row, negative for a receive.
pub open spec fn signed_multiplicity(x: InteractionView, pre: Seq<u32>, main: Seq<u32>) -> u32 {
    let m = column_value(x.multiplicity, pre, main, x.multiplicity.weights.len());
    if x.is_send {
        m
    } else {
        f_sub(0, m)
    }
}

/// The fingerprints of the interactions of a chip on a row.
pub open spec fn fingerprints(
    list: Seq<InteractionView>,
    pre: Seq<u32>,
    main: Seq<u32>,
    alpha: BBExt,
    beta: BBExt,
) -> Seq<BBExt> {
    Seq::new(
        list.len(),
        |i: int| fingerprint(list[i], pre, main, alpha, beta, list[i].values.len()),
    )
}

/// The multiplicities of the interactions of a chip on a row.
pub open spec fn multiplicities(
    list: Seq<InteractionView>,
    pre: Seq<u32>,
    main: Seq<u32>,
) -> Seq<u32> {
    Seq::new(list.len(), |i: int| signed_multiplicity(list[i], pre, main))
}

/// The product of `f[lo .. hi]`.
pub open spec fn product(f: Seq<BBExt>, lo: int, hi: int) -> BBExt
    decreases hi - lo,
{
    if hi <= lo {
        e_base(1)
    } else {
        e_mul(product(f, lo, hi - 1), f[hi - 1])
    }
}

/// The product of `f[lo .. hi]` without `f[skip]`.
pub open spec fn product_without(f: Seq<BBExt>, lo: int, hi: int, skip: int) -> BBExt
    decreases hi - lo,
{
    if hi <= lo {
        e_base(1)
    } else if hi - 1 == skip {
        product_without(f, lo, hi - 1, skip)
    } else {
        e_mul(product_without(f, lo, hi - 1, skip), f[hi - 1])
    }
}

/// The sum over `lo <= i < n` of `m[i]` times the product of `f[lo .. hi]` without `f[i]`.
pub open spec fn numerator(f: Seq<BBExt>, m: Seq<u32>, lo: int, hi: int, n: int) -> BBExt
    decreases n - lo,
{
    if n <= lo {
        e_base(0)
    } else {
        e_add(
            numerator(f, m, lo, hi, n - 1),
            e_mul(e_base(m[n - 1]), product_without(f, lo, hi, n - 1)),
        )
    }
}

/// Where the batch of entry `k` begins.
pub open spec fn batch_start(batch_size: nat, k: nat) -> nat {
    k * batch_size
}

/// Where the batch of entry `k` ends, among `total` interactions.
pub open spec fn batch_end(batch_size: nat, k: nat, total: nat) -> nat {
    if batch_start(batch_size, k) + batch_size <= total {
        batch_start(batch_size, k) + batch_size
    } else {
        total
    }
}

/// Entry `k` of a permutation row is the sum of `m_i / f_i` over its batch. The condition is cleared
/// of denominators: the entry times the product of the fingerprints is the numerator.
pub open spec fn entry_holds(
    f: Seq<BBExt>,
    m: Seq<u32>,
    batch_size: nat,
    k: nat,
    entry: BBExt,
) -> bool {
    let lo = batch_start(batch_size, k) as int;
    let hi = batch_end(batch_size, k, f.len()) as int;
    e_mul(product(f, lo, hi), entry) == numerator(f, m, lo, hi, hi)
}

/// The sum of the first `n` entries of a permutation row.
pub open spec fn row_sum(perm: Seq<u32>, n: nat) -> BBExt
    decreases n,
{
    if n == 0 {
        e_base(0)
    } else {
        e_add(row_sum(perm, (n - 1) as nat), e_block(perm, 4 * (n - 1)))
    }
}

/// The sum of the entries of the first `n` permutation rows.
pub open spec fn running_sum(perm: Seq<Seq<u32>>, entries: nat, n: nat) -> BBExt
    decreases n,
{
    if n == 0 {
        e_base(0)
    } else {
        e_add(running_sum(perm, entries, (n - 1) as nat), row_sum(perm[n - 1], entries))
    }
}

/// The preprocessed row that goes with row `i` of a main trace.
pub open spec fn companion_row(pre: Option<MatrixView>, i: int) -> Seq<u32> {
    match pre {
        Some(m) => m.row(i),
        None => Seq::empty(),
    }
}

/// The residuals of one permutation row: one for each entry, and one for the running sum, which
/// stands behind the entries and must be `sum`.
pub open spec fn permutation_residuals(
    chip: ChipView,
    entries: nat,
    pre: Seq<u32>,
    main: Seq<u32>,
    perm: Seq<u32>,
    alpha: BBExt,
    beta: BBExt,
    sum: BBExt,
) -> Seq<u32> {
    let f = fingerprints(chip.interactions, pre, main, alpha, beta);
    let m = multiplicities(chip.interactions, pre, main);
    Seq::new(
        entries,
        |k: int| flag(entry_holds(f, m, chip.batch_size, k as nat, e_block(perm, 4 * k))),
    ).push(flag(e_block(perm, 4 * entries as int) == sum))
}

/// The value of a column on a row.
fn eval_column(c: &VirtualColumn, pre: &[u32], main: &[u32]) -> (r: u32)
    requires
        column_fits(c@, pre@.len(), main@.len()),
        canonical(pre@),
        canonical(main@),
    ensures
        r == column_value(c@, pre@, main@, c@.weights.len()),
        r < BABYBEAR_P,
{
    let mut r: u32 = c.constant;
    let mut i: usize = 0;
    while i < c.weights.len()
        invariant
            i <= c.weights@.len(),
            column_fits(c@, pre@.len(), main@.len()),
            r == column_value(c@, pre@, main@, i as nat),
            r < BABYBEAR_P,
        decreases c.weights@.len() - i,
    {
        assert(c@.weights[i as int] == c.weights@[i as int]);
        let (in_main, k, weight) = c.weights[i];
        let cell: u32 = if in_main {
            main[k]
        } else {
            pre[k]
        };
        r = bb_add(r, bb_mul(cell, weight));
        i += 1;
    }
    r
}

/// The fingerprint of an interaction on a row.
pub(crate) fn eval_fingerprint(
    x: &SignedInteraction,
    pre: &[u32],
    main: &[u32],
    alpha: BBExt,
    beta: BBExt,
) -> (r: BBExt)
    requires
        interaction_fits(x@, pre@.len(), main@.len()),
        canonical(pre@),
        canonical(main@),
        alpha.wf(),
        beta.wf(),
    ensures
        r == fingerprint(x@, pre@, main@, alpha, beta, x@.values.len()),
        r.wf(),
{
    let mut r = ext_add(alpha, ext_from_base_u32(x.argument_index as u32));
    let mut power = ext_from_base_u32(1);
    let mut i: usize = 0;
    while i < x.values.len()
        invariant
            i <= x.values@.len(),
            x@.values.len() == x.values@.len(),
            interaction_fits(x@, pre@.len(), main@.len()),
            canonical(pre@),
            canonical(main@),
            beta.wf(),
            power.wf(),
            r.wf(),
            power == e_pow(beta, i as nat),
            r == fingerprint(x@, pre@, main@, alpha, beta, i as nat),
        decreases x.values@.len() - i,
    {
        assert(x@.values[i as int] == x.values@[i as int]@);
        power = ext_mul(power, beta);
        let v: u32 = eval_column(&x.values[i], pre, main);
        r = ext_add(r, ext_mul(power, ext_from_base_u32(v)));
        i += 1;
    }
    r
}

/// The multiplicity of an interaction on a row, negative for a receive.
fn eval_multiplicity(x: &SignedInteraction, pre: &[u32], main: &[u32]) -> (r: u32)
    requires
        interaction_fits(x@, pre@.len(), main@.len()),
        canonical(pre@),
        canonical(main@),
    ensures
        r == signed_multiplicity(x@, pre@, main@),
        r < BABYBEAR_P,
{
    let m: u32 = eval_column(&x.multiplicity, pre, main);
    if x.is_send {
        m
    } else {
        bb_sub(0, m)
    }
}

fn eval_product(f: &[BBExt], lo: usize, hi: usize) -> (r: BBExt)
    requires
        lo <= hi <= f@.len(),
        forall|i: int| 0 <= i < f@.len() ==> (#[trigger] f@[i]).wf(),
    ensures
        r == product(f@, lo as int, hi as int),
        r.wf(),
{
    let mut r = ext_from_base_u32(1);
    let mut i: usize = lo;
    while i < hi
        invariant
            lo <= i <= hi <= f@.len(),
            forall|i: int| 0 <= i < f@.len() ==> (#[trigger] f@[i]).wf(),
            r == product(f@, lo as int, i as int),
            r.wf(),
        decreases hi - i,
    {
        r = ext_mul(r, f[i]);
        i += 1;
    }
    r
}

fn eval_product_without(f: &[BBExt], lo: usize, hi: usize, skip: usize) -> (r: BBExt)
    requires
        lo <= hi <= f@.len(),
        forall|i: int| 0 <= i < f@.len() ==> (#[trigger] f@[i]).wf(),
    ensures
        r == product_without(f@, lo as int, hi as int, skip as int),
        r.wf(),
{
    let mut r = ext_from_base_u32(1);
    let mut i: usize = lo;
    while i < hi
        invariant
            lo <= i <= hi <= f@.len(),
            forall|i: int| 0 <= i < f@.len() ==> (#[trigger] f@[i]).wf(),
            r == product_without(f@, lo as int, i as int, skip as int),
            r.wf(),
        decreases hi - i,
    {
        if i != skip {
            r = ext_mul(r, f[i]);
        }
        i += 1;
    }
    r
}

fn eval_numerator(f: &[BBExt], m: &[u32], lo: usize, hi: usize) -> (r: BBExt)
    requires
        lo <= hi <= f@.len(),
        m@.len() == f@.len(),
        canonical(m@),
        forall|i: int| 0 <= i < f@.len() ==> (#[trigger] f@[i]).wf(),
    ensures
        r == numerator(f@, m@, lo as int, hi as int, hi as int),
        r.wf(),
{
    let mut r = ext_from_base_u32(0);
    let mut i: usize = lo;
    while i < hi
        invariant
            lo <= i <= hi <= f@.len(),
            m@.len() == f@.len(),
            canonical(m@),
            forall|i: int| 0 <= i < f@.len() ==> (#[trigger] f@[i]).wf(),
            r == numerator(f@, m@, lo as int, hi as int, i as int),
            r.wf(),
        decreases hi - i,
    {
        let rest = eval_product_without(f, lo, hi, i);
        r = ext_add(r, ext_mul(ext_from_base_u32(m[i]), rest));
        i += 1;
    }
    r
}

/// The interactions of a chip can be evaluated on rows of these widths.
pub open spec fn chip_fits(chip: ChipView, pre_cols: nat, main_cols: nat) -> bool {
    &&& chip.batch_size > 0
    &&& forall|i: int|
        0 <= i < chip.interactions.len() ==> interaction_fits(
            #[trigger] chip.interactions[i],
            pre_cols,
            main_cols,
        )
}

/// Tells whether a column can be evaluated on rows of these widths.
fn is_column_supported(c: &VirtualColumn, pre_cols: usize, main_cols: usize) -> (r: bool)
    ensures
        r == column_fits(c@, pre_cols as nat, main_cols as nat),
{
    if c.constant >= BABYBEAR_P {
        return false;
    }
    let mut i: usize = 0;
    while i < c.weights.len()
        invariant
            i <= c.weights@.len(),
            c.constant < BABYBEAR_P,
            forall|j: int|
                0 <= j < i ==> {
                    let (in_main, k, weight) = #[trigger] c@.weights[j];
                    &&& weight < BABYBEAR_P
                    &&& k < (if in_main {
                        main_cols
                    } else {
                        pre_cols
                    })
                },
        decreases c.weights@.len() - i,
    {
        assert(c@.weights[i as int] == c.weights@[i as int]);
        let (in_main, k, weight) = c.weights[i];
        let cols: usize = if in_main {
            main_cols
        } else {
            pre_cols
        };
        if weight >= BABYBEAR_P || k >= cols {
            return false;
        }
        i += 1;
    }
    true
}

/// Tells whether an interaction can be evaluated on rows of these widths.
fn is_interaction_supported(x: &SignedInteraction, pre_cols: usize, main_cols: usize) -> (r: bool)
    ensures
        r == interaction_fits(x@, pre_cols as nat, main_cols as nat),
{
    if x.argument_index as u64 >= BABYBEAR_P as u64 || !is_column_supported(
        &x.multiplicity,
        pre_cols,
        main_cols,
    ) {
        return false;
    }
    let mut i: usize = 0;
    while i < x.values.len()
        invariant
            i <= x.values@.len(),
            x@.argument_index < BABYBEAR_P,
            column_fits(x@.multiplicity, pre_cols as nat, main_cols as nat),
            forall|j: int|
                0 <= j < i ==> column_fits(
                    #[trigger] x@.values[j],
                    pre_cols as nat,
                    main_cols as nat,
                ),
        decreases x.values@.len() - i,
    {
        assert(x@.values[i as int] == x.values@[i as int]@);
        if !is_column_supported(&x.values[i], pre_cols, main_cols) {
            return false;
        }
        i += 1;
    }
    true
}

/// Tells whether the interactions of a chip can be evaluated on rows of these widths.
pub(crate) fn is_chip_supported(chip: &ChipInfo, pre_cols: usize, main_cols: usize) -> (r: bool)
    ensures
        r == chip_fits(chip@, pre_cols as nat, main_cols as nat),
{
    if chip.batch_size == 0 {
        return false;
    }
    let mut i: usize = 0;
    while i < chip.interactions.len()
        invariant
            i <= chip.interactions@.len(),
            chip.batch_size > 0,
            forall|j: int|
                0 <= j < i ==> interaction_fits(
                    #[trigger] chip@.interactions[j],
                    pre_cols as nat,
                    main_cols as nat,
                ),
        decreases chip.interactions@.len() - i,
    {
        assert(chip@.interactions[i as int] == chip.interactions@[i as int]@);
        if !is_interaction_supported(&chip.interactions[i], pre_cols, main_cols) {
            return false;
        }
        i += 1;
    }
    true
}

/// Computes the residuals of one permutation row.
fn eval_permutation_row(
    chip: &ChipInfo,
    entries: usize,
    pre: &[u32],
    main: &[u32],
    perm: &[u32],
    alpha: BBExt,
    beta: BBExt,
    sum: BBExt,
) -> (r: Vec<u32>)
    requires
        chip_fits(chip@, pre@.len(), main@.len()),
        canonical(pre@),
        canonical(main@),
        canonical(perm@),
        alpha.wf(),
        beta.wf(),
        entries == ceil_div(chip@.interactions.len(), chip@.batch_size),
        perm@.len() == 4 * (entries + 1),
    ensures
        r@ == permutation_residuals(chip@, entries as nat, pre@, main@, perm@, alpha, beta, sum),
{
    let total: usize = chip.interactions.len();
    let cols: usize = perm.len();
    let ghost list = chip@.interactions;
    let mut f: Vec<BBExt> = Vec::new();
    let mut m: Vec<u32> = Vec::new();
    let mut i: usize = 0;
    while i < total
        invariant
            i <= total,
            total == chip.interactions@.len(),
            list == chip@.interactions,
            list.len() == total,
            chip_fits(chip@, pre@.len(), main@.len()),
            canonical(pre@),
            canonical(main@),
            alpha.wf(),
            beta.wf(),
            f@.len() == i,
            m@.len() == i,
            canonical(m@),
            forall|j: int| 0 <= j < i ==> (#[trigger] f@[j]).wf(),
            forall|j: int|
                0 <= j < i ==> #[trigger] f@[j] == fingerprint(
                    list[j],
                    pre@,
                    main@,
                    alpha,
                    beta,
                    list[j].values.len(),
                ),
            forall|j: int|
                0 <= j < i ==> #[trigger] m@[j] == signed_multiplicity(list[j], pre@, main@),
        decreases total - i,
    {
        assert(list[i as int] == chip.interactions@[i as int]@);
        f.push(eval_fingerprint(&chip.interactions[i], pre, main, alpha, beta));
        m.push(eval_multiplicity(&chip.interactions[i], pre, main));
        i += 1;
    }
    proof {
        assert(f@ =~= fingerprints(list, pre@, main@, alpha, beta));
        assert(m@ =~= multiplicities(list, pre@, main@));
        lemma_ceil_div_least(total as nat, chip@.batch_size);
    }
    let mut r: Vec<u32> = Vec::new();
    let mut k: usize = 0;
    let mut lo: usize = 0;
    while k < entries
        invariant
            k <= entries,
            k < entries ==> lo == batch_start(chip@.batch_size, k as nat),
            perm@.len() == 4 * (entries + 1),
            cols == perm@.len(),
            canonical(perm@),
            total == f@.len(),
            total == m@.len(),
            canonical(m@),
            chip@.batch_size > 0,
            forall|j: int| 0 <= j < total ==> (#[trigger] f@[j]).wf(),
            forall|j: nat|
                #![trigger j * chip@.batch_size]
                j < entries ==> j * chip@.batch_size < total,
            r@ == Seq::new(
                k as nat,
                |j: int| flag(
                    entry_holds(f@, m@, chip@.batch_size, j as nat, e_block(perm@, 4 * j)),
                ),
            ),
        decreases entries - k,
    {
        assert((k as nat) * chip@.batch_size < total);
        let hi: usize = if chip.batch_size <= total - lo {
            lo + chip.batch_size
        } else {
            total
        };
        assert(hi == batch_end(chip@.batch_size, k as nat, f@.len()));
        let entry = ext_from_row(perm, 4 * k);
        let lhs = ext_mul(eval_product(&f, lo, hi), entry);
        let rhs = eval_numerator(&f, &m, lo, hi);
        r.push(residual(ext_eq(&lhs, &rhs)));
        proof {
            if k + 1 < entries {
                let next = (k + 1) as nat;
                assert(next * chip@.batch_size < total);
                assert(next * chip@.batch_size == k * chip@.batch_size + chip@.batch_size)
                    by (nonlinear_arith)
                    requires
                        next == k + 1,
                ;
            }
        }
        lo = hi;
        k += 1;
    }
    let cumulative = ext_from_row(perm, 4 * entries);
    r.push(residual(ext_eq(&cumulative, &sum)));
    assert(r@ =~= permutation_residuals(
        chip@,
        entries as nat,
        pre@,
        main@,
        perm@,
        alpha,
        beta,
        sum,
    ));
    r
}

/// The sum of the entries of a permutation row.
fn eval_row_sum(perm: &[u32], entries: usize) -> (r: BBExt)
    requires
        canonical(perm@),
        4 * entries <= perm@.len(),
    ensures
        r == row_sum(perm@, entries as nat),
        r.wf(),
{
    let cols: usize = perm.len();
    let mut r = ext_from_base_u32(0);
    let mut k: usize = 0;
    while k < entries
        invariant
            k <= entries,
            canonical(perm@),
            4 * entries <= perm@.len(),
            cols == perm@.len(),
            r == row_sum(perm@, k as nat),
            r.wf(),
        decreases entries - k,
    {
        r = ext_add(r, ext_from_row(perm, 4 * k));
        k += 1;
    }
    r
}

/// The name of the preprocessed table of a chip.
pub open spec fn pre_name(chip: Seq<char>) -> Seq<char> {
    "pre/"@ + chip
}

/// The name of the permutation table of a chip.
pub open spec fn perm_name(chip: Seq<char>) -> Seq<char> {
    "perm/"@ + chip
}

/// The name of the table with the parameters of the permutation table of a chip.
pub open spec fn meta_name(chip: Seq<char>) -> Seq<char> {
    "perm_meta/"@ + chip
}

/// The preprocessed row of a chip, which is empty where the chip has no preprocessed table.
pub open spec fn pre_row(tables: Map<Seq<char>, TableModel>, chip: Seq<char>, i: int) -> Seq<u32> {
    if tables.contains_key(pre_name(chip)) {
        tables[pre_name(chip)].data[i]
    } else {
        Seq::empty()
    }
}

/// The number of preprocessed columns of a chip.
pub open spec fn pre_cols(tables: Map<Seq<char>, TableModel>, chip: Seq<char>) -> nat {
    if tables.contains_key(pre_name(chip)) {
        tables[pre_name(chip)].cols as nat
    } else {
        0
    }
}

/// The tables of a chip hold field elements.
pub open spec fn chip_ready(tables: Map<Seq<char>, TableModel>, chip: ChipView) -> bool {
    &&& table_canonical(tables, chip.name)
    &&& table_canonical(tables, pre_name(chip.name))
    &&& table_canonical(tables, perm_name(chip.name))
}

/// What is wrong with the tables of the permutation argument of a chip, if anything.
pub open spec fn permutation_error(tables: Map<Seq<char>, TableModel>, chip: ChipView) -> Option<
    WalkErrorView,
> {
    let main = tables[chip.name];
    let perm = tables[perm_name(chip.name)];
    let meta = tables[meta_name(chip.name)];
    if !chip.commits_locally {
        Some(WalkErrorView::GlobalScope(chip.name))
    } else if !tables.contains_key(perm_name(chip.name)) {
        Some(WalkErrorView::MissingTable(perm_name(chip.name)))
    } else if perm.rows != main.rows {
        Some(
            WalkErrorView::RowMismatch {
                table: perm_name(chip.name),
                rows: perm.rows as nat,
                other: chip.name,
                other_rows: main.rows as nat,
            },
        )
    } else if perm.cols % 4 != 0 {
        Some(
            WalkErrorView::ColumnGranularity {
                table: perm_name(chip.name),
                factor: 4,
                got: perm.cols as nat,
            },
        )
    } else if !tables.contains_key(meta_name(chip.name)) {
        Some(WalkErrorView::MissingTable(meta_name(chip.name)))
    } else if meta.rows != 1 {
        Some(
            WalkErrorView::RowCount {
                table: meta_name(chip.name),
                expected: 1,
                got: meta.rows as nat,
            },
        )
    } else if meta.cols != 2 {
        Some(
            WalkErrorView::ColumnCount {
                table: meta_name(chip.name),
                expected: 2,
                got: meta.cols as nat,
            },
        )
    } else if let Some(e) = read_error(tables, meta_name(chip.name), 0) {
        Some(e)
    } else if meta.data[0][0] != chip.batch_size {
        Some(
            WalkErrorView::BatchSize {
                table: meta_name(chip.name),
                expected: chip.batch_size,
                got: meta.data[0][0] as nat,
            },
        )
    } else if perm.cols / 4 != chip.permutation_width {
        Some(
            WalkErrorView::PermutationWidth {
                table: perm_name(chip.name),
                expected: chip.permutation_width,
                got: (perm.cols / 4) as nat,
            },
        )
    } else if tables.contains_key(pre_name(chip.name)) && tables[pre_name(chip.name)].rows
        != main.rows {
        Some(
            WalkErrorView::RowMismatch {
                table: pre_name(chip.name),
                rows: tables[pre_name(chip.name)].rows as nat,
                other: chip.name,
                other_rows: main.rows as nat,
            },
        )
    } else {
        None
    }
}

/// The residuals of row `i` of the permutation table of a chip.
pub open spec fn permutation_row(
    tables: Map<Seq<char>, TableModel>,
    chip: ChipView,
    alpha: BBExt,
    beta: BBExt,
    i: int,
) -> Seq<u32> {
    let entries = (chip.permutation_width - 1) as nat;
    permutation_residuals(
        chip,
        entries,
        pre_row(tables, chip.name, i),
        tables[chip.name].data[i],
        tables[perm_name(chip.name)].data[i],
        alpha,
        beta,
        running_sum(tables[perm_name(chip.name)].data, entries, (i + 1) as nat),
    )
}

/// What is wrong with the interactions of a chip, if anything: they do not fill the entries of its
/// permutation table, or refer to columns that its tables do not have.
pub open spec fn interactions_error(
    tables: Map<Seq<char>, TableModel>,
    chip: ChipView,
) -> Option<WalkErrorView> {
    let filled = ceil_div(chip.interactions.len(), chip.batch_size);
    if chip.batch_size > 0 && chip.permutation_width - 1 != filled {
        Some(
            WalkErrorView::EntryCount {
                table: perm_name(chip.name),
                expected: filled,
                got: (chip.permutation_width - 1) as nat,
            },
        )
    } else if !chip_fits(chip, pre_cols(tables, chip.name), tables[chip.name].cols as nat) {
        Some(WalkErrorView::ChipColumns(chip.name))
    } else {
        None
    }
}

/// What checking row `i` of the permutation table of a chip does: the main row, the preprocessed row
/// where there is one, and the permutation row are read, and then the residuals are emitted.
pub open spec fn permutation_step(
    tables: Map<Seq<char>, TableModel>,
    chip: ChipView,
    alpha: BBExt,
    beta: BBExt,
    i: int,
) -> Outcome<WalkErrorView> {
    let row = i as u32;
    let checked = match interactions_error(tables, chip) {
        Some(e) => fails(e),
        None => emits(
            row_emissions(
                Section::Permutation,
                Some(row),
                permutation_row(tables, chip, alpha, beta, i),
            ),
        ),
    };
    let rest = after_reading(tables, perm_name(chip.name), row, checked);
    after_reading(
        tables,
        chip.name,
        row,
        if tables.contains_key(pre_name(chip.name)) {
            after_reading(tables, pre_name(chip.name), row, rest)
        } else {
            rest
        },
    )
}

/// What checking each row of the permutation table of a chip does.
pub open spec fn permutation_steps(
    tables: Map<Seq<char>, TableModel>,
    chip: ChipView,
    alpha: BBExt,
    beta: BBExt,
) -> Seq<Outcome<WalkErrorView>> {
    Seq::new(
        tables[chip.name].rows as nat,
        |i: int| permutation_step(tables, chip, alpha, beta, i),
    )
}

/// What walking the permutation table of a chip does. A chip without a table or without
/// interactions is passed over.
pub open spec fn chip_outcome(
    tables: Map<Seq<char>, TableModel>,
    chip: ChipView,
    alpha: BBExt,
    beta: BBExt,
) -> Outcome<WalkErrorView> {
    if !tables.contains_key(chip.name) || chip.permutation_width == 0 {
        emits(Seq::empty())
    } else {
        match permutation_error(tables, chip) {
            Some(e) => fails(e),
            None => in_sequence(
                permutation_steps(tables, chip, alpha, beta),
                tables[chip.name].rows as nat,
            ),
        }
    }
}

/// What walking the permutation tables of the chips does, chip by chip.
pub open spec fn chip_steps(
    tables: Map<Seq<char>, TableModel>,
    chips: Seq<ChipView>,
    alpha: BBExt,
    beta: BBExt,
) -> Seq<Outcome<WalkErrorView>> {
    Seq::new(chips.len(), |i: int| chip_outcome(tables, chips[i], alpha, beta))
}

/// What walking the permutation tables of all chips does.
pub open spec fn chips_outcome(
    tables: Map<Seq<char>, TableModel>,
    chips: Seq<ChipView>,
    alpha: BBExt,
    beta: BBExt,
) -> Outcome<WalkErrorView> {
    in_sequence(chip_steps(tables, chips, alpha, beta), chips.len())
}

/// Checks the tables of the permutation argument of a chip; gives the number of rows, or `None`
/// where the chip is to be passed over.
fn permutation_rows<P: RowProvider>(p: &mut P, chip: &ChipInfo) -> (r: Result<
    Option<u32>,
    WalkError,
>)
    requires
        chip_ready(old(p).tables(), chip@),
    ensures
        final(p).tables() == old(p).tables(),
        match r {
            Ok(None) => !old(p).tables().contains_key(chip@.name) || chip@.permutation_width == 0,
            Ok(Some(rows)) => {
                &&& old(p).tables().contains_key(chip@.name)
                &&& chip@.permutation_width > 0
                &&& permutation_error(old(p).tables(), chip@) is None
                &&& rows == old(p).tables()[chip@.name].rows
            },
            Err(e) => {
                &&& old(p).tables().contains_key(chip@.name)
                &&& chip@.permutation_width > 0
                &&& permutation_error(old(p).tables(), chip@) == Some(e@)
            },
        },
{
    let name = chip.name.as_str();
    let (rows, main_width) = match p.dims(name) {
        Some(d) => d,
        None => {
            return Ok(None);
        },
    };
    if chip.permutation_width == 0 {
        return Ok(None);
    }
    if !chip.commits_locally {
        return Err(WalkError::GlobalScope(name.to_owned()));
    }
    let perm_table = concat_str("perm/", name);
    let meta_table = concat_str("perm_meta/", name);
    let pre_table = concat_str("pre/", name);
    let (perm_rows, perm_cols) = match p.dims(perm_table.as_str()) {
        Some(d) => d,
        None => {
            return Err(WalkError::MissingTable(perm_table));
        },
    };
    if perm_rows != rows {
        return Err(
            WalkError::RowMismatch {
                table: perm_table,
                rows: perm_rows,
                other: name.to_owned(),
                other_rows: rows,
            },
        );
    }
    if perm_cols % 4 != 0 {
        return Err(
            WalkError::ColumnGranularity { table: perm_table, factor: 4, got: perm_cols as u64 },
        );
    }
    let (meta_rows, meta_cols) = match p.dims(meta_table.as_str()) {
        Some(d) => d,
        None => {
            return Err(WalkError::MissingTable(meta_table));
        },
    };
    if meta_rows != 1 {
        return Err(
            WalkError::RowCount { table: meta_table, expected: 1, got: meta_rows as u64 },
        );
    }
    if meta_cols != 2 {
        return Err(
            WalkError::ColumnCount { table: meta_table, expected: 2, got: meta_cols as u64 },
        );
    }
    let meta = match p.read_row_u32(meta_table.as_str(), 0) {
        Ok(v) => v,
        Err(e) => {
            return Err(WalkError::Read(e));
        },
    };
    let batch_size: u32 = meta[0];
    if batch_size as u64 != chip.batch_size as u64 {
        return Err(
            WalkError::BatchSize {
                table: meta_table,
                expected: chip.batch_size as u64,
                got: batch_size as u64,
            },
        );
    }
    let width: u32 = perm_cols / 4;
    if width as u64 != chip.permutation_width as u64 {
        return Err(
            WalkError::PermutationWidth {
                table: perm_table,
                expected: chip.permutation_width as u64,
                got: width as u64,
            },
        );
    }
    if let Some((pre_rows, _)) = p.dims(pre_table.as_str()) {
        if pre_rows != rows {
            return Err(
                WalkError::RowMismatch {
                    table: pre_table,
                    rows: pre_rows,
                    other: name.to_owned(),
                    other_rows: rows,
                },
            );
        }
    }
    Ok(Some(rows))
}

/// Finds what is wrong with the interactions of a chip.
fn find_interactions_error<P: RowProvider>(p: &P, chip: &ChipInfo) -> (r: Option<WalkError>)
    requires
        p.tables().contains_key(chip@.name),
        chip@.permutation_width > 0,
    ensures
        match r {
            Some(e) => interactions_error(p.tables(), chip@) == Some(e@),
            None => interactions_error(p.tables(), chip@) is None,
        },
{
    let name = chip.name.as_str();
    if chip.batch_size > 0 {
        let entries: usize = chip.permutation_width - 1;
        let filled: usize = div_ceil(chip.interactions.len(), chip.batch_size);
        if entries != filled {
            return Some(
                WalkError::EntryCount {
                    table: concat_str("perm/", name),
                    expected: filled as u64,
                    got: entries as u64,
                },
            );
        }
    }
    let main_width: u32 = match p.dims(name) {
        Some((_, cols)) => cols,
        None => 0,
    };
    let pre_width: u32 = match p.dims(concat_str("pre/", name).as_str()) {
        Some((_, cols)) => cols,
        None => 0,
    };
    if !is_chip_supported(chip, pre_width as usize, main_width as usize) {
        return Some(WalkError::ChipColumns(name.to_owned()));
    }
    None
}

/// The permutation table of a chip can be walked row by row.
spec fn can_walk_rows(tables: Map<Seq<char>, TableModel>, chip: ChipView) -> bool {
    &&& chip_ready(tables, chip)
    &&& tables.contains_key(chip.name)
    &&& permutation_error(tables, chip) is None
    &&& chip.permutation_width > 0
}

/// How a step ended, whatever it gives.
spec fn ended(r: Result<BBExt, WalkError>) -> Result<(), WalkError> {
    match r {
        Ok(_) => Ok(()),
        Err(e) => Err(e),
    }
}

/// Checks one row of the permutation table of a chip; gives the running sum.
fn check_permutation_row<P: RowProvider>(
    p: &mut P,
    log: &mut ResidualLog,
    chip: &ChipInfo,
    alpha: BBExt,
    beta: BBExt,
    before: BBExt,
    row: u32,
) -> (r: Result<BBExt, WalkError>)
    requires
        can_walk_rows(old(p).tables(), chip@),
        row < old(p).tables()[chip@.name].rows,
        alpha.wf(),
        beta.wf(),
        before.wf(),
        before == running_sum(
            old(p).tables()[perm_name(chip@.name)].data,
            (chip@.permutation_width - 1) as nat,
            row as nat,
        ),
    ensures
        ran(
            *old(p),
            *final(p),
            old(log)@,
            final(log)@,
            ended(r),
            permutation_step(old(p).tables(), chip@, alpha, beta, row as int),
        ),
        r matches Ok(sum) ==> sum.wf() && sum == running_sum(
            old(p).tables()[perm_name(chip@.name)].data,
            (chip@.permutation_width - 1) as nat,
            (row + 1) as nat,
        ),
{
    proof {
        lemma_extend_empty(log@);
    }
    let ghost tables = p.tables();
    let ghost c = chip@;
    let name = chip.name.as_str();
    let perm_table = concat_str("perm/", name);
    let pre_table = concat_str("pre/", name);
    let entries: usize = chip.permutation_width - 1;
    let main = match p.read_row_u32(name, row) {
        Ok(v) => v,
        Err(e) => {
            return Err(WalkError::Read(e));
        },
    };
    let pre = if p.dims(pre_table.as_str()).is_some() {
        match p.read_row_u32(pre_table.as_str(), row) {
            Ok(v) => v,
            Err(e) => {
                return Err(WalkError::Read(e));
            },
        }
    } else {
        Vec::new()
    };
    let perm = match p.read_row_u32(perm_table.as_str(), row) {
        Ok(v) => v,
        Err(e) => {
            return Err(WalkError::Read(e));
        },
    };
    if let Some(e) = find_interactions_error(p, chip) {
        return Err(e);
    }
    assert(pre@ =~= pre_row(tables, c.name, row as int));
    let sum = ext_add(before, eval_row_sum(&perm, entries));
    let values = eval_permutation_row(chip, entries, &pre, &main, &perm, alpha, beta, sum);
    log.emit_row(Section::Permutation, Some(row), &values);
    Ok(sum)
}

/// Walks the permutation table of one chip.
pub fn walk_chip<P: RowProvider>(
    p: &mut P,
    log: &mut ResidualLog,
    chip: &ChipInfo,
    alpha: BBExt,
    beta: BBExt,
) -> (r: Result<(), WalkError>)
    requires
        chip_ready(old(p).tables(), chip@),
        alpha.wf(),
        beta.wf(),
    ensures
        ran(
            *old(p),
            *final(p),
            old(log)@,
            final(log)@,
            r,
            chip_outcome(old(p).tables(), chip@, alpha, beta),
        ),
{
    let ghost tables = p.tables();
    let ghost c = chip@;
    proof {
        lemma_extend_empty(log@);
    }
    let rows: u32 = match permutation_rows(p, chip) {
        Ok(Some(rows)) => rows,
        Ok(None) => {
            return Ok(());
        },
        Err(e) => {
            return Err(e);
        },
    };
    let ghost steps = permutation_steps(tables, c, alpha, beta);
    let ghost data = tables[perm_name(c.name)].data;
    let mut sum = ext_from_base_u32(0);
    let mut row: u32 = 0;
    proof {
        lemma_sequence_start(*p, log@, steps);
    }
    while row < rows
        invariant
            row <= rows,
            rows == tables[c.name].rows,
            c == chip@,
            can_walk_rows(tables, c),
            data == tables[perm_name(c.name)].data,
            alpha.wf(),
            beta.wf(),
            sum.wf(),
            sum == running_sum(data, (c.permutation_width - 1) as nat, row as nat),
            steps == permutation_steps(tables, c, alpha, beta),
            p.tables() == tables,
            tables == old(p).tables(),
            ran(*old(p), *p, old(log)@, log@, Ok(()), in_sequence(steps, row as nat)),
        decreases rows - row,
    {
        let ghost p1 = *p;
        let ghost log1 = log@;
        let r = check_permutation_row(p, log, chip, alpha, beta, sum, row);
        proof {
            lemma_sequence_step(
                *old(p),
                p1,
                *p,
                old(log)@,
                log1,
                log@,
                ended(r),
                steps,
                row as nat,
                rows as nat,
            );
        }
        sum = match r {
            Ok(sum) => sum,
            Err(e) => {
                return Err(e);
            },
        };
        row += 1;
    }
    Ok(())
}

/// Walks the permutation tables of all chips, in order.
pub fn walk_chips<P: RowProvider>(
    p: &mut P,
    log: &mut ResidualLog,
    chips: &[ChipInfo],
    alpha: BBExt,
    beta: BBExt,
) -> (r: Result<(), WalkError>)
    requires
        forall|i: int|
            0 <= i < chips@.len() ==> chip_ready(old(p).tables(), (#[trigger] chips@[i])@),
        alpha.wf(),
        beta.wf(),
    ensures
        ran(
            *old(p),
            *final(p),
            old(log)@,
            final(log)@,
            r,
            chips_outcome(old(p).tables(), chips_view(chips@), alpha, beta),
        ),
{
    let ghost tables = p.tables();
    let ghost steps = chip_steps(tables, chips_view(chips@), alpha, beta);
    let mut i: usize = 0;
    proof {
        lemma_sequence_start(*p, log@, steps);
    }
    while i < chips.len()
        invariant
            i <= chips@.len(),
            steps == chip_steps(tables, chips_view(chips@), alpha, beta),
            alpha.wf(),
            beta.wf(),
            tables == old(p).tables(),
            p.tables() == tables,
            forall|i: int| 0 <= i < chips@.len() ==> chip_ready(tables, (#[trigger] chips@[i])@),
            ran(*old(p), *p, old(log)@, log@, Ok(()), in_sequence(steps, i as nat)),
        decreases chips@.len() - i,
    {
        let ghost p1 = *p;
        let ghost log1 = log@;
        assert(steps[i as int] == chip_outcome(tables, chips@[i as int]@, alpha, beta));
        let r = walk_chip(p, log, &chips[i], alpha, beta);
        proof {
            lemma_sequence_step(
                *old(p),
                p1,
                *p,
                old(log)@,
                log1,
                log@,
                r,
                steps,
                i as nat,
                chips@.len(),
            );
        }
        if r.is_err() {
            return r;
        }
        i += 1;
    }
    Ok(())
}

} // verus!
