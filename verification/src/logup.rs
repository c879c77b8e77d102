//! Permutation rows that add up quotients satisfy the permutation argument.

use vstd::prelude::*;

use crate::babybear::canonical;
use crate::extension::{e_add, e_base, e_block, e_mul, BBExt};
use crate::machine::ChipView;
use crate::matrix::MatrixView;
use crate::permutation::{
    batch_end, batch_start, companion_row, entry_holds, fingerprints, multiplicities, numerator,
    permutation_residuals, product, product_without, running_sum,
};
use crate::ring::{
    lemma_mul_associates, lemma_mul_commutes, lemma_mul_distributes, lemma_mul_zero,
};
use crate::sizing::{ceil_div, lemma_ceil_div_least};
use crate::stream::zeros;

verus! {

/// `q[i]` is the quotient `m[i] / f[i]`.
pub open spec fn are_quotients(q: Seq<BBExt>, f: Seq<BBExt>, m: Seq<u32>) -> bool {
    &&& q.len() == f.len()
    &&& forall|i: int| 0 <= i < q.len() ==> e_mul(#[trigger] q[i], f[i]) == e_base(m[i])
}

/// The sum of `q[lo .. hi]`.
pub open spec fn sum_of(q: Seq<BBExt>, lo: int, hi: int) -> BBExt
    decreases hi - lo,
{
    if hi <= lo {
        e_base(0)
    } else {
        e_add(sum_of(q, lo, hi - 1), q[hi - 1])
    }
}

/// Entry by entry, a permutation row holds the sums of the quotients of its batches.
pub open spec fn sums_quotients(
    row: Seq<u32>,
    f: Seq<BBExt>,
    m: Seq<u32>,
    batch_size: nat,
    entries: nat,
) -> bool {
    exists|q: Seq<BBExt>|
        #![trigger are_quotients(q, f, m)]
        are_quotients(q, f, m) && forall|k: nat|
            k < entries ==> e_block(row, 4 * k as int) == sum_of(
                q,
                #[trigger] batch_start(batch_size, k) as int,
                batch_end(batch_size, k, f.len()) as int,
            )
}

/// A product without a factor that it does not have is the product.
proof fn lemma_without_none(f: Seq<BBExt>, lo: int, hi: int, skip: int)
    requires
        skip < lo || hi <= skip,
    ensures
        product_without(f, lo, hi, skip) == product(f, lo, hi),
    decreases hi - lo,
{
    if lo < hi {
        lemma_without_none(f, lo, hi - 1, skip);
    }
}

/// A product is any of its factors times the product without it.
proof fn lemma_without_one(f: Seq<BBExt>, lo: int, hi: int, skip: int)
    requires
        lo <= skip < hi,
    ensures
        product(f, lo, hi) == e_mul(product_without(f, lo, hi, skip), f[skip]),
    decreases hi - lo,
{
    if hi - 1 == skip {
        lemma_without_none(f, lo, hi - 1, skip);
    } else {
        lemma_without_one(f, lo, hi - 1, skip);
        let rest = product_without(f, lo, hi - 1, skip);
        lemma_mul_associates(rest, f[skip], f[hi - 1]);
        lemma_mul_commutes(f[skip], f[hi - 1]);
        lemma_mul_associates(rest, f[hi - 1], f[skip]);
    }
}

/// The product of the fingerprints of a batch times the sum of the quotients is the numerator.
proof fn lemma_cleared(
    f: Seq<BBExt>,
    m: Seq<u32>,
    q: Seq<BBExt>,
    lo: int,
    hi: int,
    n: int,
)
    requires
        are_quotients(q, f, m),
        0 <= lo <= n <= hi <= f.len(),
    ensures
        e_mul(product(f, lo, hi), sum_of(q, lo, n)) == numerator(f, m, lo, hi, n),
    decreases n - lo,
{
    let whole = product(f, lo, hi);
    lemma_mul_commutes(whole, sum_of(q, lo, n));
    if n == lo {
        lemma_mul_zero(whole);
    } else {
        let i = n - 1;
        lemma_cleared(f, m, q, lo, hi, i);
        lemma_mul_commutes(whole, sum_of(q, lo, i));
        lemma_mul_distributes(whole, sum_of(q, lo, i), q[i]);
        lemma_without_one(f, lo, hi, i);
        let rest = product_without(f, lo, hi, i);
        lemma_mul_commutes(rest, f[i]);
        lemma_mul_associates(q[i], f[i], rest);
    }
}

/// The sum of the quotients of a batch satisfies the condition on its entry.
pub proof fn law_quotients_satisfy_entry(
    f: Seq<BBExt>,
    m: Seq<u32>,
    q: Seq<BBExt>,
    batch_size: nat,
    k: nat,
)
    requires
        are_quotients(q, f, m),
        batch_start(batch_size, k) <= f.len(),
    ensures
        entry_holds(
            f,
            m,
            batch_size,
            k,
            sum_of(
                q,
                batch_start(batch_size, k) as int,
                batch_end(batch_size, k, f.len()) as int,
            ),
        ),
{
    let lo = batch_start(batch_size, k) as int;
    let hi = batch_end(batch_size, k, f.len()) as int;
    lemma_cleared(f, m, q, lo, hi, hi);
}

/// The width of the permutation trace of a chip, in extension elements: an entry for each batch of
/// interactions, and the running sum. A chip without interactions has none of these.
pub open spec fn trace_width(chip: ChipView) -> nat {
    if chip.interactions.len() == 0 {
        0
    } else {
        ceil_div(chip.interactions.len(), chip.batch_size) + 1
    }
}

/// A permutation trace, its limbs row by row, of the width and height that a chip and its main trace
/// ask for.
pub open spec fn has_trace_shape(chip: ChipView, main: MatrixView, perm: MatrixView) -> bool {
    &&& perm.width == 4 * trace_width(chip)
    &&& perm.values.len() == perm.width * main.height()
    &&& canonical(perm.values)
}

/// Row by row, a permutation trace holds the sums of the quotients of its batches and the sum of all
/// entries up to that row.
pub open spec fn accumulates(
    chip: ChipView,
    pre: Option<MatrixView>,
    main: MatrixView,
    perm: MatrixView,
    alpha: BBExt,
    beta: BBExt,
) -> bool {
    let entries = ceil_div(chip.interactions.len(), chip.batch_size);
    chip.interactions.len() > 0 ==> forall|i: int|
        0 <= i < main.height() ==> {
            let f = fingerprints(
                chip.interactions,
                companion_row(pre, i),
                main.row(i),
                alpha,
                beta,
            );
            let m = multiplicities(chip.interactions, companion_row(pre, i), main.row(i));
            &&& sums_quotients(#[trigger] perm.row(i), f, m, chip.batch_size, entries)
            &&& e_block(perm.row(i), 4 * entries as int) == running_sum(
                perm.rows(),
                entries,
                (i + 1) as nat,
            )
        }
}

/// Every residual of a permutation trace is zero.
pub open spec fn argument_holds(
    chip: ChipView,
    pre: Option<MatrixView>,
    main: MatrixView,
    perm: MatrixView,
    alpha: BBExt,
    beta: BBExt,
) -> bool {
    let entries = ceil_div(chip.interactions.len(), chip.batch_size);
    chip.interactions.len() > 0 ==> forall|i: int|
        0 <= i < main.height() ==> permutation_residuals(
            chip,
            entries,
            companion_row(pre, i),
            main.row(i),
            #[trigger] perm.row(i),
            alpha,
            beta,
            running_sum(perm.rows(), entries, (i + 1) as nat),
        ) == zeros(entries + 1)
}

/// A permutation trace that accumulates the quotients satisfies the permutation argument.
pub proof fn law_accumulated_argument_holds(
    chip: ChipView,
    pre: Option<MatrixView>,
    main: MatrixView,
    perm: MatrixView,
    alpha: BBExt,
    beta: BBExt,
)
    requires
        chip.batch_size > 0,
        accumulates(chip, pre, main, perm, alpha, beta),
    ensures
        argument_holds(chip, pre, main, perm, alpha, beta),
{
    let n = chip.interactions.len();
    let b = chip.batch_size;
    let entries = ceil_div(n, b);
    if n > 0 {
        assert forall|i: int| 0 <= i < main.height() implies permutation_residuals(
            chip,
            entries,
            companion_row(pre, i),
            main.row(i),
            #[trigger] perm.row(i),
            alpha,
            beta,
            running_sum(perm.rows(), entries, (i + 1) as nat),
        ) == zeros(entries + 1) by {
            let row = perm.row(i);
            let f = fingerprints(
                chip.interactions,
                companion_row(pre, i),
                main.row(i),
                alpha,
                beta,
            );
            let m = multiplicities(chip.interactions, companion_row(pre, i), main.row(i));
            let q = choose|q: Seq<BBExt>|
                #![trigger are_quotients(q, f, m)]
                are_quotients(q, f, m) && forall|k: nat|
                    k < entries ==> e_block(row, 4 * k as int) == sum_of(
                        q,
                        #[trigger] batch_start(b, k) as int,
                        batch_end(b, k, f.len()) as int,
                    );
            let r = permutation_residuals(
                chip,
                entries,
                companion_row(pre, i),
                main.row(i),
                row,
                alpha,
                beta,
                running_sum(perm.rows(), entries, (i + 1) as nat),
            );
            assert forall|k: int| 0 <= k < entries implies r[k] == 0 by {
                lemma_ceil_div_least(n, b);
                assert(k as nat * b < n);
                law_quotients_satisfy_entry(f, m, q, b, k as nat);
                assert(e_block(row, 4 * k) == sum_of(
                    q,
                    batch_start(b, k as nat) as int,
                    batch_end(b, k as nat, f.len()) as int,
                ));
            }
            assert(r =~= zeros(entries + 1));
        }
    }
}

} // verus!
