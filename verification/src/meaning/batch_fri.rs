//! The `BatchFRI` rows accumulate sums, each of them from its own terms.

use vstd::prelude::*;

use crate::babybear::{canonical, law_boolean_check_is_exact, BABYBEAR_P};
use crate::chips::batch_fri::BatchFri;
use crate::constraints::TransitionCheck;
use crate::extension::{e_add, e_base, e_mul, e_sub, BBExt};
use crate::meaning::field::{
    lemma_e_add, lemma_e_difference, lemma_e_mul_difference, lemma_e_mul_wf,
};

verus! {

/// The element whose coefficients stand at a place of a row.
pub open spec fn element(row: Seq<u32>, at: int) -> BBExt {
    BBExt { c0: row[at], c1: row[at + 1], c2: row[at + 2], c3: row[at + 3] }
}

/// `t` is the term of a main row `(acc, alpha_pow, p_at_z, p_at_x)`: with `alpha_pow * p_at_x` it adds
/// up to `alpha_pow * p_at_z`.
pub open spec fn is_term(main: Seq<u32>, t: BBExt) -> bool {
    let alpha_pow = element(main, 4);
    e_add(t, e_mul(alpha_pow, e_base(main[12]))) == e_mul(alpha_pow, element(main, 8))
}

proof fn lemma_term(main: Seq<u32>, t: BBExt)
    requires
        main.len() == 13,
        canonical(main),
        t.wf(),
    ensures
        is_term(main, t) <==> t == e_mul(element(main, 4), e_sub(element(main, 8), e_base(main[12]))),
        e_mul(element(main, 4), e_sub(element(main, 8), e_base(main[12]))).wf(),
{
    let (a, b, c) = (element(main, 4), element(main, 8), e_base(main[12]));
    assert(0 < BABYBEAR_P);
    lemma_e_mul_difference(a, b, c, t);
    lemma_e_mul_wf(a, e_sub(b, c));
}

/// Every row has exactly one term.
pub proof fn law_term_is_unique(main: Seq<u32>, s: BBExt, t: BBExt)
    requires
        main.len() == 13,
        canonical(main),
        s.wf(),
        t.wf(),
        is_term(main, s),
        is_term(main, t),
    ensures
        s == t,
{
    lemma_term(main, s);
    lemma_term(main, t);
}

/// What the residuals of a row by itself say: both flags are 0 or 1, and the first row holds its own
/// term.
pub proof fn law_batch_fri_row(row: u32, main: Seq<u32>, pre: Seq<u32>)
    requires
        main.len() == 13,
        pre.len() == 6,
        canonical(main),
        canonical(pre),
    ensures
        ({
            let r = BatchFri.residuals(row, main, pre);
            &&& r.len() == 3
            &&& r[0] == 0 <==> pre[0] == 0 || pre[0] == 1
            &&& r[1] == 0 <==> pre[1] == 0 || pre[1] == 1
            &&& r[2] == 0 <==> row != 0 || is_term(main, element(main, 0))
        }),
{
    law_boolean_check_is_exact(pre[0]);
    law_boolean_check_is_exact(pre[1]);
    lemma_term(main, element(main, 0));
}

/// What the residual between rows says, for the term `t` of the next row: after a row that ends its sum
/// the next accumulator is that term, whatever the sum was; after any other row it is the sum so far and
/// the term.
pub proof fn law_batch_fri_links(
    main: Seq<u32>,
    pre: Seq<u32>,
    next_main: Seq<u32>,
    next_pre: Seq<u32>,
    t: BBExt,
)
    requires
        main.len() == 13,
        pre.len() == 6,
        next_main.len() == 13,
        canonical(main),
        canonical(pre),
        canonical(next_main),
        t.wf(),
        is_term(next_main, t),
    ensures
        ({
            let r = BatchFri.links(main, pre, next_main, next_pre);
            let next_acc = element(next_main, 0);
            &&& r.len() == 1
            &&& BatchFri.num_links() == 1
            &&& pre[1] == 1 ==> (r[0] == 0 <==> next_acc == t)
            &&& pre[1] != 1 ==> (r[0] == 0 <==> next_acc == e_add(element(main, 0), t))
            &&& pre[1] != 1 ==> (r[0] == 0 <==> e_sub(next_acc, element(main, 0)) == t)
        }),
{
    lemma_term(next_main, t);
    let (acc, next_acc) = (element(main, 0), element(next_main, 0));
    lemma_e_difference(next_acc, acc, t);
    lemma_e_add(acc, t, t);
}

/// The sum that row `i` has to hold: its term alone where it is the first row or the row before it ends
/// a sum, and else the sum of the row before it and its term.
pub open spec fn sum_at(pres: Seq<Seq<u32>>, terms: Seq<BBExt>, i: int) -> BBExt
    decreases i,
{
    if i <= 0 || pres[i - 1][1] == 1 {
        terms[i]
    } else {
        e_add(sum_at(pres, terms, i - 1), terms[i])
    }
}

/// Rows of main and preprocessed values, and the terms of the main rows.
pub open spec fn are_terms(
    mains: Seq<Seq<u32>>,
    pres: Seq<Seq<u32>>,
    terms: Seq<BBExt>,
) -> bool {
    &&& pres.len() == mains.len()
    &&& terms.len() == mains.len()
    &&& forall|i: int|
        0 <= i < mains.len() ==> {
            &&& (#[trigger] mains[i]).len() == 13
            &&& canonical(mains[i])
            &&& pres[i].len() == 6
            &&& canonical(pres[i])
            &&& terms[i].wf()
            &&& is_term(mains[i], terms[i])
        }
}

/// The accumulators of a whole table pass exactly where they are the sums of their terms, each sum
/// started anew after a row that ends the one before it.
pub proof fn law_batch_fri_accumulates(
    mains: Seq<Seq<u32>>,
    pres: Seq<Seq<u32>>,
    terms: Seq<BBExt>,
)
    requires
        are_terms(mains, pres, terms),
        mains.len() <= u32::MAX,
    ensures
        (forall|i: int|
            0 <= i < mains.len() ==> {
                &&& #[trigger] BatchFri.residuals(i as u32, mains[i], pres[i])[2] == 0
                &&& i + 1 < mains.len() ==> BatchFri.links(
                    mains[i],
                    pres[i],
                    mains[i + 1],
                    Seq::empty(),
                )[0] == 0
            }) <==> (forall|i: int|
            0 <= i < mains.len() ==> element(#[trigger] mains[i], 0) == sum_at(pres, terms, i)),
{
    let passes = forall|i: int|
        0 <= i < mains.len() ==> {
            &&& #[trigger] BatchFri.residuals(i as u32, mains[i], pres[i])[2] == 0
            &&& i + 1 < mains.len() ==> BatchFri.links(
                mains[i],
                pres[i],
                mains[i + 1],
                Seq::empty(),
            )[0] == 0
        };
    if passes {
        assert forall|i: int| 0 <= i < mains.len() implies element(#[trigger] mains[i], 0) == sum_at(
            pres,
            terms,
            i,
        ) by {
            lemma_sums_so_far(mains, pres, terms, i);
        }
    }
    if forall|i: int|
        0 <= i < mains.len() ==> element(#[trigger] mains[i], 0) == sum_at(pres, terms, i) {
        assert forall|i: int| 0 <= i < mains.len() implies {
            &&& #[trigger] BatchFri.residuals(i as u32, mains[i], pres[i])[2] == 0
            &&& i + 1 < mains.len() ==> BatchFri.links(
                mains[i],
                pres[i],
                mains[i + 1],
                Seq::empty(),
            )[0] == 0
        } by {
            law_batch_fri_row(i as u32, mains[i], pres[i]);
            lemma_term(mains[i], terms[i]);
            if i + 1 < mains.len() {
                law_batch_fri_links(mains[i], pres[i], mains[i + 1], Seq::empty(), terms[i + 1]);
            }
        }
    }
}

proof fn lemma_sums_so_far(mains: Seq<Seq<u32>>, pres: Seq<Seq<u32>>, terms: Seq<BBExt>, i: int)
    requires
        are_terms(mains, pres, terms),
        mains.len() <= u32::MAX,
        0 <= i < mains.len(),
        forall|i: int|
            0 <= i < mains.len() ==> {
                &&& #[trigger] BatchFri.residuals(i as u32, mains[i], pres[i])[2] == 0
                &&& i + 1 < mains.len() ==> BatchFri.links(
                    mains[i],
                    pres[i],
                    mains[i + 1],
                    Seq::empty(),
                )[0] == 0
            },
    ensures
        element(mains[i], 0) == sum_at(pres, terms, i),
    decreases i,
{
    assert(BatchFri.residuals(i as u32, mains[i], pres[i])[2] == 0);
    law_batch_fri_row(i as u32, mains[i], pres[i]);
    if i == 0 {
        law_term_is_unique(mains[0], element(mains[0], 0), terms[0]);
    } else {
        lemma_sums_so_far(mains, pres, terms, i - 1);
        let k = i - 1;
        assert(BatchFri.residuals(k as u32, mains[k], pres[k])[2] == 0);
        law_batch_fri_links(mains[k], pres[k], mains[k + 1], Seq::empty(), terms[i]);
    }
}

} // verus!
