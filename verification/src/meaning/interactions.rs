//! What the permutation argument says of the interactions of a chip: each batch of them is summed up in
//! an entry, sends with their multiplicities and receives with the negative of theirs, and the entries of
//! all rows in a running sum.

use vstd::arithmetic::div_mod::{lemma_add_mod_noop, lemma_mod_bound, lemma_small_mod};
use vstd::prelude::*;

use crate::babybear::{canonical, f_add, BABYBEAR_P};
use crate::extension::{e_add, e_base, e_mul, e_sub, BBExt};
use crate::logup::{are_quotients, law_quotients_satisfy_entry, sum_of};
use crate::machine::{
    shrink_chip, shrink_chip_columns, shrink_chip_header, shrink_local_interactions, ChipView,
    ColumnView, InteractionView,
};
use crate::meaning::batch_fri::element;
use crate::meaning::field::{lemma_e_add, lemma_e_difference, lemma_e_mul_wf, lemma_wraps};
use crate::meaning::walks::lemma_no_step_failed;
use crate::permutation::{
    batch_end, batch_start, chip_outcome, column_value, e_pow, entry_holds, fingerprint, fingerprints,
    interaction_fits, interactions_error, multiplicities, perm_name, permutation_residuals,
    permutation_row, permutation_step, permutation_steps, product, row_sum, running_sum,
    signed_multiplicity,
};
use crate::ring::{lemma_mul_associates, lemma_mul_commutes, lemma_mul_distributes, lemma_mul_zero};
use crate::rows::TableModel;
use crate::sizing::lemma_ceil_div_least;

verus! {

/// The cells that a column refers to, each times its weight, added up as integers.
pub open spec fn weighted_cells(
    weights: Seq<(bool, usize, u32)>,
    pre: Seq<u32>,
    main: Seq<u32>,
) -> int
    decreases weights.len(),
{
    if weights.len() == 0 {
        0
    } else {
        let (in_main, k, weight) = weights.last();
        weighted_cells(weights.drop_last(), pre, main) + weight * (if in_main {
            main[k as int]
        } else {
            pre[k as int]
        })
    }
}

proof fn lemma_column(c: ColumnView, pre: Seq<u32>, main: Seq<u32>, n: nat)
    requires
        c.constant < BABYBEAR_P,
        n <= c.weights.len(),
    ensures
        column_value(c, pre, main, n) == (c.constant + weighted_cells(
            c.weights.take(n as int),
            pre,
            main,
        )) % (BABYBEAR_P as int),
        column_value(c, pre, main, n) < BABYBEAR_P,
    decreases n,
{
    let p = BABYBEAR_P as int;
    let w = c.weights.take(n as int);
    if n == 0 {
        lemma_small_mod(c.constant as nat, p as nat);
    } else {
        let m = (n - 1) as nat;
        lemma_column(c, pre, main, m);
        assert(w.drop_last() =~= c.weights.take(m as int));
        assert(w.last() == c.weights[n - 1]);
        let (in_main, k, weight) = c.weights[n - 1];
        let cell = if in_main {
            main[k as int]
        } else {
            pre[k as int]
        };
        assert(weight * cell == cell * weight) by (nonlinear_arith);
        let t = c.constant + weighted_cells(c.weights.take(m as int), pre, main);
        lemma_mod_bound(t, p);
        lemma_mod_bound(cell * weight, p);
        lemma_add_mod_noop(t, cell * weight, p);
        lemma_mod_bound(t + cell * weight, p);
    }
}

/// The value of a column on a row is its constant and the weighted sum of the cells that it refers to,
/// in the main row or in the preprocessed row.
pub proof fn law_column_is_weighted_sum(c: ColumnView, pre: Seq<u32>, main: Seq<u32>)
    requires
        c.constant < BABYBEAR_P,
    ensures
        column_value(c, pre, main, c.weights.len()) == (c.constant + weighted_cells(
            c.weights,
            pre,
            main,
        )) % (BABYBEAR_P as int),
{
    lemma_column(c, pre, main, c.weights.len());
    assert(c.weights.take(c.weights.len() as int) =~= c.weights);
}

/// The multiplicity of a send is the value of its column, and that of a receive is its negative: for two
/// interactions that differ only in their direction, the two multiplicities add up to zero.
pub proof fn law_directions_cancel(
    send: InteractionView,
    receive: InteractionView,
    pre: Seq<u32>,
    main: Seq<u32>,
)
    requires
        send.is_send,
        !receive.is_send,
        receive.multiplicity == send.multiplicity,
        send.multiplicity.constant < BABYBEAR_P,
    ensures
        ({
            let s = signed_multiplicity(send, pre, main);
            let r = signed_multiplicity(receive, pre, main);
            &&& s == (send.multiplicity.constant + weighted_cells(
                send.multiplicity.weights,
                pre,
                main,
            )) % (BABYBEAR_P as int)
            &&& f_add(s, r) == 0
            &&& (s + r) % (BABYBEAR_P as int) == 0
            &&& r < BABYBEAR_P
        }),
{
    let c = send.multiplicity;
    law_column_is_weighted_sum(c, pre, main);
    lemma_column(c, pre, main, c.weights.len());
    let s = signed_multiplicity(send, pre, main);
    lemma_wraps(0, s);
    let r = signed_multiplicity(receive, pre, main);
    lemma_wraps(s, r);
}

/// The values of the columns from number `k` on, as the coefficients of a polynomial in `beta`.
pub open spec fn polynomial(
    values: Seq<ColumnView>,
    pre: Seq<u32>,
    main: Seq<u32>,
    beta: BBExt,
    k: nat,
) -> BBExt
    decreases values.len() - k,
{
    if k >= values.len() {
        e_base(0)
    } else {
        e_add(
            e_base(column_value(values[k as int], pre, main, values[k as int].weights.len())),
            e_mul(beta, polynomial(values, pre, main, beta, k + 1)),
        )
    }
}

proof fn lemma_polynomial_wf(
    x: InteractionView,
    pre: Seq<u32>,
    main: Seq<u32>,
    beta: BBExt,
    k: nat,
)
    requires
        interaction_fits(x, pre.len(), main.len()),
    ensures
        polynomial(x.values, pre, main, beta, k).wf(),
    decreases x.values.len() - k,
{
    if k < x.values.len() {
        lemma_polynomial_wf(x, pre, main, beta, k + 1);
        let c = x.values[k as int];
        lemma_column(c, pre, main, c.weights.len());
        lemma_e_mul_wf(beta, polynomial(x.values, pre, main, beta, k + 1));
        let v = e_base(column_value(c, pre, main, c.weights.len()));
        lemma_e_add(v, e_mul(beta, polynomial(x.values, pre, main, beta, k + 1)), v);
    }
}

proof fn lemma_fingerprint(
    x: InteractionView,
    pre: Seq<u32>,
    main: Seq<u32>,
    alpha: BBExt,
    beta: BBExt,
    n: nat,
)
    requires
        interaction_fits(x, pre.len(), main.len()),
        alpha.wf(),
        n <= x.values.len(),
    ensures
        fingerprint(x, pre, main, alpha, beta, n).wf(),
        e_add(
            fingerprint(x, pre, main, alpha, beta, n),
            e_mul(e_pow(beta, n + 1), polynomial(x.values, pre, main, beta, n)),
        ) == e_add(
            e_add(alpha, e_base(x.argument_index as u32)),
            e_mul(e_pow(beta, 1), polynomial(x.values, pre, main, beta, 0)),
        ),
    decreases n,
{
    if n == 0 {
        lemma_e_add(alpha, e_base(x.argument_index as u32), alpha);
    } else {
        let m = (n - 1) as nat;
        lemma_fingerprint(x, pre, main, alpha, beta, m);
        lemma_polynomial_wf(x, pre, main, beta, n);
        let c = x.values[n - 1];
        let v = e_base(column_value(c, pre, main, c.weights.len()));
        lemma_column(c, pre, main, c.weights.len());
        let f = fingerprint(x, pre, main, alpha, beta, m);
        let rest = polynomial(x.values, pre, main, beta, n);
        let b = e_pow(beta, n);
        let shifted = e_mul(beta, rest);
        assert(polynomial(x.values, pre, main, beta, m) == e_add(v, shifted));
        lemma_step(b, beta, v, rest, f);
        assert(e_pow(beta, n + 1) == e_mul(b, beta));
        lemma_e_mul_wf(b, v);
        lemma_e_add(f, e_mul(b, v), f);
    }
}

/// `f + b * (v + beta * rest) = (f + b * v) + (b * beta) * rest`.
proof fn lemma_step(b: BBExt, beta: BBExt, v: BBExt, rest: BBExt, f: BBExt)
    requires
        f.wf(),
    ensures
        e_add(f, e_mul(b, e_add(v, e_mul(beta, rest)))) == e_add(
            e_add(f, e_mul(b, v)),
            e_mul(e_mul(b, beta), rest),
        ),
{
    let shifted = e_mul(beta, rest);
    lemma_mul_commutes(b, e_add(v, shifted));
    lemma_mul_distributes(b, v, shifted);
    lemma_mul_commutes(b, v);
    lemma_mul_commutes(b, shifted);
    lemma_mul_associates(b, beta, rest);
    lemma_e_mul_wf(b, v);
    lemma_e_mul_wf(b, shifted);
    lemma_e_add(f, e_mul(b, v), e_mul(b, shifted));
}

/// The fingerprint of an interaction is `alpha`, its argument index, and `beta` times the polynomial in
/// `beta` whose coefficients are its values.
pub proof fn law_fingerprint_is_polynomial(
    x: InteractionView,
    pre: Seq<u32>,
    main: Seq<u32>,
    alpha: BBExt,
    beta: BBExt,
)
    requires
        interaction_fits(x, pre.len(), main.len()),
        alpha.wf(),
        beta.wf(),
    ensures
        fingerprint(x, pre, main, alpha, beta, x.values.len()) == e_add(
            e_add(alpha, e_base(x.argument_index as u32)),
            e_mul(beta, polynomial(x.values, pre, main, beta, 0)),
        ),
{
    let n = x.values.len();
    lemma_fingerprint(x, pre, main, alpha, beta, n);
    let f = fingerprint(x, pre, main, alpha, beta, n);
    lemma_mul_commutes(e_pow(beta, n + 1), e_base(0));
    lemma_mul_zero(e_pow(beta, n + 1));
    lemma_e_add(f, f, f);
    lemma_e_one(beta);
    assert(e_pow(beta, 1) == beta) by {
        reveal_with_fuel(e_pow, 2);
    }
}

/// One is one.
proof fn lemma_e_one(a: BBExt)
    requires
        a.wf(),
    ensures
        e_mul(e_base(1), a) == a,
        e_mul(a, e_base(1)) == a,
{
    assert(0 * a.c0 == 0 && 0 * a.c1 == 0 && 0 * a.c2 == 0 && 0 * a.c3 == 0);
    assert(1 * a.c0 == a.c0 && 1 * a.c1 == a.c1 && 1 * a.c2 == a.c2 && 1 * a.c3 == a.c3);
    lemma_mul_commutes(e_base(1), a);
}

/// `g[i]` is the inverse of `f[i]`.
pub open spec fn are_inverses(g: Seq<BBExt>, f: Seq<BBExt>) -> bool {
    &&& g.len() == f.len()
    &&& forall|i: int| 0 <= i < g.len() ==> e_mul(#[trigger] g[i], f[i]) == e_base(1)
}

/// The product of inverses is the inverse of the product.
proof fn lemma_product_inverse(g: Seq<BBExt>, f: Seq<BBExt>, lo: int, hi: int)
    requires
        are_inverses(g, f),
        0 <= lo <= hi <= f.len(),
    ensures
        e_mul(product(g, lo, hi), product(f, lo, hi)) == e_base(1),
    decreases hi - lo,
{
    lemma_e_one(e_base(1));
    if lo < hi {
        lemma_product_inverse(g, f, lo, hi - 1);
        let (a, b) = (product(g, lo, hi - 1), product(f, lo, hi - 1));
        let (x, y) = (g[hi - 1], f[hi - 1]);
        lemma_mul_associates(a, x, e_mul(b, y));
        lemma_mul_commutes(b, y);
        lemma_mul_associates(x, y, b);
        lemma_product_wf(f, lo, hi - 1);
        lemma_e_one(b);
    }
}

proof fn lemma_product_wf(f: Seq<BBExt>, lo: int, hi: int)
    ensures
        product(f, lo, hi).wf(),
    decreases hi - lo,
{
    if lo < hi {
        lemma_e_mul_wf(product(f, lo, hi - 1), f[hi - 1]);
    }
}

/// The condition on an entry is exact: where all fingerprints of its batch are invertible, the entry has
/// to be the sum of the quotients `m / f` of the interactions from number `k * batch_size` up to the next
/// batch or the end.
pub proof fn law_entry_is_sum_of_quotients(
    f: Seq<BBExt>,
    m: Seq<u32>,
    q: Seq<BBExt>,
    g: Seq<BBExt>,
    batch_size: nat,
    k: nat,
    entry: BBExt,
)
    requires
        are_quotients(q, f, m),
        are_inverses(g, f),
        k * batch_size <= f.len(),
        entry.wf(),
        forall|i: int| 0 <= i < q.len() ==> (#[trigger] q[i]).wf(),
    ensures
        entry_holds(f, m, batch_size, k, entry) <==> entry == sum_of(
            q,
            (k * batch_size) as int,
            if k * batch_size + batch_size <= f.len() {
                (k * batch_size + batch_size) as int
            } else {
                f.len() as int
            },
        ),
{
    let lo = batch_start(batch_size, k) as int;
    let hi = batch_end(batch_size, k, f.len()) as int;
    let s = sum_of(q, lo, hi);
    law_quotients_satisfy_entry(f, m, q, batch_size, k);
    lemma_product_inverse(g, f, lo, hi);
    let (a, b) = (product(g, lo, hi), product(f, lo, hi));
    lemma_mul_associates(a, b, entry);
    lemma_mul_associates(a, b, s);
    lemma_sum_wf(q, lo, hi);
    lemma_e_one(entry);
    lemma_e_one(s);
}

proof fn lemma_sum_wf(q: Seq<BBExt>, lo: int, hi: int)
    requires
        0 <= lo,
        hi <= q.len(),
        forall|i: int| 0 <= i < q.len() ==> (#[trigger] q[i]).wf(),
    ensures
        sum_of(q, lo, hi).wf(),
    decreases hi - lo,
{
    if lo < hi {
        lemma_sum_wf(q, lo, hi - 1);
        lemma_e_add(sum_of(q, lo, hi - 1), q[hi - 1], q[hi - 1]);
    }
}

/// What the residuals of a permutation row say. Let `f` and `m` hold, for each interaction, its fingerprint
/// and its multiplicity, `g` the inverses of the fingerprints and `q` the quotients. Then residual `k` is
/// zero exactly where entry `k` of the row is the sum of the quotients of batch `k`, and the last one
/// exactly where what stands behind the entries is the given sum.
pub proof fn law_permutation_row(
    chip: ChipView,
    entries: nat,
    pre: Seq<u32>,
    main: Seq<u32>,
    perm: Seq<u32>,
    alpha: BBExt,
    beta: BBExt,
    sum: BBExt,
    q: Seq<BBExt>,
    g: Seq<BBExt>,
    k: nat,
)
    requires
        perm.len() == 4 * (entries + 1),
        canonical(perm),
        k < entries,
        k * chip.batch_size <= chip.interactions.len(),
        q.len() == chip.interactions.len(),
        g.len() == chip.interactions.len(),
        forall|i: int|
            0 <= i < q.len() ==> {
                let x = chip.interactions[i];
                let f = fingerprint(x, pre, main, alpha, beta, x.values.len());
                &&& (#[trigger] q[i]).wf()
                &&& e_mul(q[i], f) == e_base(signed_multiplicity(x, pre, main))
                &&& e_mul(g[i], f) == e_base(1)
            },
    ensures
        ({
            let r = permutation_residuals(chip, entries, pre, main, perm, alpha, beta, sum);
            let to = if k * chip.batch_size + chip.batch_size <= q.len() {
                (k * chip.batch_size + chip.batch_size) as int
            } else {
                q.len() as int
            };
            &&& r.len() == entries + 1
            &&& r[k as int] == 0 <==> element(perm, 4 * k as int) == sum_of(
                q,
                (k * chip.batch_size) as int,
                to,
            )
            &&& r[entries as int] == 0 <==> element(perm, 4 * entries as int) == sum
        }),
{
    let f = fingerprints(chip.interactions, pre, main, alpha, beta);
    let m = multiplicities(chip.interactions, pre, main);
    assert forall|i: int| 0 <= i < q.len() implies e_mul(#[trigger] q[i], f[i]) == e_base(m[i]) by {}
    assert forall|i: int| 0 <= i < g.len() implies e_mul(#[trigger] g[i], f[i]) == e_base(1) by {
        assert(q[i].wf());
    }
    law_entry_is_sum_of_quotients(f, m, q, g, chip.batch_size, k, element(perm, 4 * k as int));
}

/// The residuals of row `i` of a chip are about row `i` of its own tables: of the main one, of the
/// preprocessed one where there is one, and of the permutation one.
pub proof fn law_permutation_row_of_tables(
    tables: Map<Seq<char>, TableModel>,
    chip: ChipView,
    alpha: BBExt,
    beta: BBExt,
    i: int,
    q: Seq<BBExt>,
    g: Seq<BBExt>,
    k: nat,
)
    requires
        chip.permutation_width > k + 1,
        tables["perm/"@ + chip.name].data[i].len() == 4 * chip.permutation_width,
        canonical(tables["perm/"@ + chip.name].data[i]),
        k * chip.batch_size <= chip.interactions.len(),
        q.len() == chip.interactions.len(),
        g.len() == chip.interactions.len(),
        forall|j: int|
            0 <= j < q.len() ==> {
                let x = chip.interactions[j];
                let main = tables[chip.name].data[i];
                let pre = if tables.contains_key("pre/"@ + chip.name) {
                    tables["pre/"@ + chip.name].data[i]
                } else {
                    Seq::empty()
                };
                let f = fingerprint(x, pre, main, alpha, beta, x.values.len());
                &&& (#[trigger] q[j]).wf()
                &&& e_mul(q[j], f) == e_base(signed_multiplicity(x, pre, main))
                &&& e_mul(g[j], f) == e_base(1)
            },
    ensures
        ({
            let r = permutation_row(tables, chip, alpha, beta, i);
            let to = if k * chip.batch_size + chip.batch_size <= q.len() {
                (k * chip.batch_size + chip.batch_size) as int
            } else {
                q.len() as int
            };
            &&& r.len() == chip.permutation_width
            &&& r[k as int] == 0 <==> element(
                tables["perm/"@ + chip.name].data[i],
                4 * k as int,
            ) == sum_of(q, (k * chip.batch_size) as int, to)
        }),
{
    let entries = (chip.permutation_width - 1) as nat;
    let pre = if tables.contains_key("pre/"@ + chip.name) {
        tables["pre/"@ + chip.name].data[i]
    } else {
        Seq::empty()
    };
    let perm = tables["perm/"@ + chip.name].data;
    law_permutation_row(
        chip,
        entries,
        pre,
        tables[chip.name].data[i],
        perm[i],
        alpha,
        beta,
        running_sum(perm, entries, (i + 1) as nat),
        q,
        g,
        k,
    );
}

/// A chip whose residuals could be computed has the tables that they need: a permutation table as long as
/// the main one, with four columns for each entry and the sum, and a description of one row that states the
/// number of interactions in an entry. A preprocessed table may be missing, and else is as long as the main
/// one.
pub proof fn law_chip_has_tables(
    tables: Map<Seq<char>, TableModel>,
    chip: ChipView,
    alpha: BBExt,
    beta: BBExt,
)
    requires
        chip_outcome(tables, chip, alpha, beta).error is None,
        tables.contains_key(chip.name),
        chip.permutation_width > 0,
    ensures
        ({
            let main = tables[chip.name];
            let perm = tables["perm/"@ + chip.name];
            let meta = tables["perm_meta/"@ + chip.name];
            &&& chip.commits_locally
            &&& tables.contains_key("perm/"@ + chip.name)
            &&& perm.rows == main.rows
            &&& perm.cols == 4 * chip.permutation_width
            &&& tables.contains_key("perm_meta/"@ + chip.name)
            &&& meta.rows == 1
            &&& meta.cols == 2
            &&& meta.readable[0]
            &&& meta.data[0][0] == chip.batch_size
            &&& tables.contains_key("pre/"@ + chip.name) ==> tables["pre/"@ + chip.name].rows
                == main.rows
            &&& main.rows > 0 ==> {
                let entries = chip.permutation_width - 1;
                &&& chip.batch_size > 0
                &&& chip.interactions.len() <= entries * chip.batch_size
                &&& entries * chip.batch_size < chip.interactions.len() + chip.batch_size
            }
        }),
{
    if tables[chip.name].rows > 0 {
        let steps = permutation_steps(tables, chip, alpha, beta);
        lemma_no_step_failed(steps, tables[chip.name].rows as nat, 0);
        assert(steps[0] == permutation_step(tables, chip, alpha, beta, 0));
        assert(interactions_error(tables, chip) is None);
        lemma_ceil_div_least(chip.interactions.len(), chip.batch_size);
    }
}

/// The first `n` entries of a permutation row, added up.
pub open spec fn entries_total(perm: Seq<u32>, n: nat) -> BBExt
    decreases n,
{
    if n == 0 {
        e_base(0)
    } else {
        e_add(element(perm, 4 * (n - 1)), entries_total(perm, (n - 1) as nat))
    }
}

proof fn lemma_entries_total(perm: Seq<u32>, n: nat)
    requires
        4 * n <= perm.len(),
        canonical(perm),
    ensures
        entries_total(perm, n) == row_sum(perm, n),
        row_sum(perm, n).wf(),
    decreases n,
{
    if n > 0 {
        lemma_entries_total(perm, (n - 1) as nat);
        let e = element(perm, 4 * (n - 1));
        lemma_e_add(row_sum(perm, (n - 1) as nat), e, e);
    }
}

/// The running sum of a permutation table: the first row holds the sum of its own entries, and every
/// other row, where the one before it holds its running sum, that one and the sum of its own entries.
pub proof fn law_running_sum(
    tables: Map<Seq<char>, TableModel>,
    chip: ChipView,
    alpha: BBExt,
    beta: BBExt,
    i: int,
)
    requires
        chip.permutation_width > 0,
        0 <= i,
        forall|j: int|
            0 <= j <= i ==> {
                &&& (#[trigger] tables[perm_name(chip.name)].data[j]).len() == 4
                    * chip.permutation_width
                &&& canonical(tables[perm_name(chip.name)].data[j])
            },
    ensures
        ({
            let perm = tables[perm_name(chip.name)].data;
            let last = chip.permutation_width - 1;
            let r = permutation_row(tables, chip, alpha, beta, i);
            let before = permutation_row(tables, chip, alpha, beta, i - 1);
            &&& r.len() == chip.permutation_width
            &&& i == 0 ==> (r[last] == 0 <==> element(perm[0], 4 * last) == entries_total(
                perm[0],
                last as nat,
            ))
            &&& i > 0 && before[last] == 0 ==> (r[last] == 0 <==> e_sub(
                element(perm[i], 4 * last),
                element(perm[i - 1], 4 * last),
            ) == entries_total(perm[i], last as nat))
        }),
{
    let perm = tables[perm_name(chip.name)].data;
    let n = (chip.permutation_width - 1) as nat;
    assert(perm[i].len() == 4 * chip.permutation_width);
    lemma_entries_total(perm[i], n);
    let own = row_sum(perm[i], n);
    assert(running_sum(perm, n, (i + 1) as nat) == e_add(running_sum(perm, n, i as nat), own));
    if i == 0 {
        assert(running_sum(perm, n, 0) == e_base(0));
        lemma_e_add(own, e_base(0), own);
    } else {
        assert(perm[i - 1].len() == 4 * chip.permutation_width);
        let s = running_sum(perm, n, i as nat);
        let e = element(perm[i], 4 * n as int);
        let d = element(perm[i - 1], 4 * n as int);
        lemma_e_difference(e, d, own);
        lemma_e_add(own, d, d);
    }
}

/// The number of interactions of local scope among the first `n`.
pub open spec fn count_local(kinds: Seq<(usize, bool)>, n: nat) -> nat
    decreases n,
{
    if n == 0 {
        0
    } else {
        count_local(kinds, (n - 1) as nat) + (if kinds[n - 1].1 {
            1nat
        } else {
            0
        })
    }
}

proof fn lemma_local(chip: nat, send: bool, n: nat, j: int)
    requires
        n <= shrink_chip_header(chip).side(send).len(),
        0 <= j < n,
        shrink_chip_header(chip).side(send)[j].1,
    ensures
        ({
            let kinds = shrink_chip_header(chip).side(send);
            let list = shrink_local_interactions(chip, send, n);
            let columns = shrink_chip_columns(chip, send, j as nat);
            &&& list.len() == count_local(kinds, n)
            &&& count_local(kinds, j as nat) < list.len()
            &&& list[count_local(kinds, j as nat) as int] == (InteractionView {
                is_send: send,
                argument_index: kinds[j].0 as nat,
                values: columns.drop_last(),
                multiplicity: columns.last(),
            })
        }),
    decreases n,
{
    lemma_local_len(chip, send, (n - 1) as nat);
    lemma_local_len(chip, send, n);
    if j < n - 1 {
        lemma_local(chip, send, (n - 1) as nat, j);
    }
}

proof fn lemma_local_len(chip: nat, send: bool, n: nat)
    ensures
        shrink_local_interactions(chip, send, n).len() == count_local(
            shrink_chip_header(chip).side(send),
            n,
        ),
    decreases n,
{
    if n > 0 {
        lemma_local_len(chip, send, (n - 1) as nat);
    }
}

/// The interactions of a chip are those of local scope, its sends in order and behind them its receives
/// in order, and no others.
pub proof fn law_interactions_are_local(chip: nat, send: bool, j: int)
    requires
        0 <= j < shrink_chip_header(chip).side(send).len(),
        shrink_chip_header(chip).side(send)[j].1,
    ensures
        ({
            let h = shrink_chip_header(chip);
            let list = shrink_chip(chip).interactions;
            let columns = shrink_chip_columns(chip, send, j as nat);
            let sends = count_local(h.sends, h.sends.len());
            let at = if send {
                count_local(h.sends, j as nat) as int
            } else {
                (sends + count_local(h.receives, j as nat)) as int
            };
            &&& list.len() == sends + count_local(h.receives, h.receives.len())
            &&& 0 <= at < list.len()
            &&& list[at].is_send == send
            &&& list[at].argument_index == (if send {
                h.sends[j].0
            } else {
                h.receives[j].0
            })
            &&& list[at].values == columns.take(columns.len() - 1)
            &&& list[at].multiplicity == columns[columns.len() - 1]
        }),
{
    let h = shrink_chip_header(chip);
    lemma_local(chip, send, h.side(send).len(), j);
    lemma_local_len(chip, true, h.sends.len());
    lemma_local_len(chip, false, h.receives.len());
    let columns = shrink_chip_columns(chip, send, j as nat);
    assert(columns.drop_last() =~= columns.take(columns.len() - 1));
}

} // verus!
