//! The local constraints of the recursion chips, one module per chip.

use vstd::prelude::*;

use crate::babybear::{bb_add, bb_is_boolean, f_add, f_is_boolean, f_sub, BABYBEAR_P};

pub mod base_alu;
pub mod batch_fri;
pub mod exp_reverse_bits;
pub mod ext_alu;
pub mod poseidon2;
pub mod public_values;
pub mod select;

verus! {

/// The residual of a condition: 0 where it holds, 1 where it fails.
pub open spec fn flag(holds: bool) -> u32 {
    if holds {
        0
    } else {
        1
    }
}

pub fn residual(holds: bool) -> (r: u32)
    ensures
        r == flag(holds),
{
    if holds {
        0
    } else {
        1
    }
}

/// A value of a row, by column.
pub fn row_u32(row: &[u32], col: u32) -> (r: u32)
    requires
        col < row@.len(),
    ensures
        r == row@[col as int],
{
    row[col as usize]
}

/// The residuals of `n` lanes side by side.
pub open spec fn lanes(f: spec_fn(int) -> Seq<u32>, n: nat) -> Seq<u32>
    decreases n,
{
    if n == 0 {
        Seq::empty()
    } else {
        lanes(f, (n - 1) as nat) + f(n - 1)
    }
}

/// At most one of four operation flags is set: each is 0 or 1, and so is their sum.
pub open spec fn one_operation(a: u32, b: u32, c: u32, d: u32) -> bool {
    &&& f_is_boolean(a)
    &&& f_is_boolean(b)
    &&& f_is_boolean(c)
    &&& f_is_boolean(d)
    &&& f_is_boolean(f_add(f_add(a, b), f_add(c, d)))
}

pub fn is_one_operation(a: u32, b: u32, c: u32, d: u32) -> (r: bool)
    ensures
        r == one_operation(a, b, c, d),
{
    bb_is_boolean(a) && bb_is_boolean(b) && bb_is_boolean(c) && bb_is_boolean(d) && bb_is_boolean(
        bb_add(bb_add(a, b), bb_add(c, d)),
    )
}

/// Two canonical values are equal exactly when their field difference is zero.
pub proof fn lemma_difference_zero(a: u32, b: u32)
    requires
        a < BABYBEAR_P,
        b < BABYBEAR_P,
    ensures
        (f_sub(a, b) == 0) == (a == b),
{
}

} // verus!
