//! The degree-4 extension of BabyBear, `F[x] / (x^4 - 11)`.

use p3_baby_bear::BabyBear;
use p3_field::extension::BinomialExtensionField;
use p3_field::{AbstractExtensionField, AbstractField, PrimeField32};
use vstd::prelude::*;

use crate::babybear::{f_add, f_sub, BABYBEAR_P};

verus! {

/// An extension element `c0 + c1 x + c2 x^2 + c3 x^3`.
#[derive(Clone, Copy, Debug, PartialEq, Eq, Structural)]
pub struct BBExt {
    pub c0: u32,
    pub c1: u32,
    pub c2: u32,
    pub c3: u32,
}

impl BBExt {
    /// Every coefficient is canonical.
    pub open spec fn wf(self) -> bool {
        &&& self.c0 < BABYBEAR_P
        &&& self.c1 < BABYBEAR_P
        &&& self.c2 < BABYBEAR_P
        &&& self.c3 < BABYBEAR_P
    }
}

/// The element that has the base element `v` as its constant coefficient.
pub open spec fn e_base(v: u32) -> BBExt {
    BBExt { c0: v, c1: 0, c2: 0, c3: 0 }
}

/// The element that four consecutive values of a row spell, lowest coefficient first.
pub open spec fn e_block(row: Seq<u32>, at: int) -> BBExt {
    BBExt { c0: row[at], c1: row[at + 1], c2: row[at + 2], c3: row[at + 3] }
}

/// `a + b` in the extension.
pub open spec fn e_add(a: BBExt, b: BBExt) -> BBExt {
    BBExt {
        c0: f_add(a.c0, b.c0),
        c1: f_add(a.c1, b.c1),
        c2: f_add(a.c2, b.c2),
        c3: f_add(a.c3, b.c3),
    }
}

/// `a - b` in the extension.
pub open spec fn e_sub(a: BBExt, b: BBExt) -> BBExt {
    BBExt {
        c0: f_sub(a.c0, b.c0),
        c1: f_sub(a.c1, b.c1),
        c2: f_sub(a.c2, b.c2),
        c3: f_sub(a.c3, b.c3),
    }
}

/// `a * b` in the extension: the product of the polynomials, with `x^4` replaced by 11.
pub open spec fn e_mul(a: BBExt, b: BBExt) -> BBExt {
    let p = BABYBEAR_P as int;
    BBExt {
        c0: ((a.c0 * b.c0 + 11 * (a.c1 * b.c3 + a.c2 * b.c2 + a.c3 * b.c1)) % p) as u32,
        c1: ((a.c0 * b.c1 + a.c1 * b.c0 + 11 * (a.c2 * b.c3 + a.c3 * b.c2)) % p) as u32,
        c2: ((a.c0 * b.c2 + a.c1 * b.c1 + a.c2 * b.c0 + 11 * (a.c3 * b.c3)) % p) as u32,
        c3: ((a.c0 * b.c3 + a.c1 * b.c2 + a.c2 * b.c1 + a.c3 * b.c0) % p) as u32,
    }
}

pub fn ext_from_block_u32(v: [u32; 4]) -> (r: BBExt)
    ensures
        r == e_block(v@, 0),
{
    BBExt { c0: v[0], c1: v[1], c2: v[2], c3: v[3] }
}

pub fn ext_from_base_u32(v: u32) -> (r: BBExt)
    ensures
        r == e_base(v),
{
    BBExt { c0: v, c1: 0, c2: 0, c3: 0 }
}

/// Reads the extension element that starts at a column of a row.
pub fn ext_from_row(row: &[u32], at: usize) -> (r: BBExt)
    requires
        at + 4 <= row@.len(),
    ensures
        r == e_block(row@, at as int),
{
    BBExt { c0: row[at], c1: row[at + 1], c2: row[at + 2], c3: row[at + 3] }
}

pub fn ext_eq(a: &BBExt, b: &BBExt) -> (r: bool)
    ensures
        r == (*a == *b),
{
    *a == *b
}

/// Calls the addition of `p3_field`'s `BinomialExtensionField<BabyBear, 4>`: coefficients are
/// added one by one in the base field.
#[verifier::external_body]
pub(crate) fn ext_add(a: BBExt, b: BBExt) -> (r: BBExt)
    requires
        a.wf(),
        b.wf(),
    ensures
        r == e_add(a, b),
{
    let x = [a.c0, a.c1, a.c2, a.c3].map(BabyBear::from_canonical_u32);
    let y = [b.c0, b.c1, b.c2, b.c3].map(BabyBear::from_canonical_u32);
    let z = BinomialExtensionField::<BabyBear, 4>::from_base_slice(&x)
        + BinomialExtensionField::<BabyBear, 4>::from_base_slice(&y);
    let c: &[BabyBear] = z.as_base_slice();
    BBExt {
        c0: c[0].as_canonical_u32(),
        c1: c[1].as_canonical_u32(),
        c2: c[2].as_canonical_u32(),
        c3: c[3].as_canonical_u32(),
    }
}

/// Calls the subtraction of `p3_field`'s `BinomialExtensionField<BabyBear, 4>`: coefficients are
/// subtracted one by one in the base field.
#[verifier::external_body]
pub(crate) fn ext_sub(a: BBExt, b: BBExt) -> (r: BBExt)
    requires
        a.wf(),
        b.wf(),
    ensures
        r == e_sub(a, b),
{
    let x = [a.c0, a.c1, a.c2, a.c3].map(BabyBear::from_canonical_u32);
    let y = [b.c0, b.c1, b.c2, b.c3].map(BabyBear::from_canonical_u32);
    let z = BinomialExtensionField::<BabyBear, 4>::from_base_slice(&x)
        - BinomialExtensionField::<BabyBear, 4>::from_base_slice(&y);
    let c: &[BabyBear] = z.as_base_slice();
    BBExt {
        c0: c[0].as_canonical_u32(),
        c1: c[1].as_canonical_u32(),
        c2: c[2].as_canonical_u32(),
        c3: c[3].as_canonical_u32(),
    }
}

/// Calls the multiplication of `p3_field`'s `BinomialExtensionField<BabyBear, 4>`: the product of
/// the two polynomials modulo `x^4 - 11`, 11 being the binomial constant that `p3_baby_bear` sets.
#[verifier::external_body]
pub(crate) fn ext_mul(a: BBExt, b: BBExt) -> (r: BBExt)
    requires
        a.wf(),
        b.wf(),
    ensures
        r == e_mul(a, b),
{
    let x = [a.c0, a.c1, a.c2, a.c3].map(BabyBear::from_canonical_u32);
    let y = [b.c0, b.c1, b.c2, b.c3].map(BabyBear::from_canonical_u32);
    let z = BinomialExtensionField::<BabyBear, 4>::from_base_slice(&x)
        * BinomialExtensionField::<BabyBear, 4>::from_base_slice(&y);
    let c: &[BabyBear] = z.as_base_slice();
    BBExt {
        c0: c[0].as_canonical_u32(),
        c1: c[1].as_canonical_u32(),
        c2: c[2].as_canonical_u32(),
        c3: c[3].as_canonical_u32(),
    }
}

} // verus!
