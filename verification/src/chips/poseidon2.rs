//! The `Poseidon2WideDeg3` chip: a Poseidon2 permutation, with the state of every round and the
//! cubes of the S-box inputs laid out in a row.

use p3_baby_bear::BabyBear;
use p3_field::{AbstractField, PrimeField32};
use sp1_core_machine::operations::poseidon2::air::{
    external_linear_layer_mut, internal_linear_layer_mut,
};
use sp1_primitives::RC_16_30_U32;
use vstd::prelude::*;

use crate::babybear::{bb_add, bb_mul, canonical, f_add, f_mul, BABYBEAR_P};
use crate::chips::{flag, lanes, residual};
use crate::constraints::{paired_rows, pairing_error, row_check_steps, walk_rows, RowCheck};
use crate::residuals::{
    emits, fails, in_sequence, row_emissions, Outcome, ResidualLog, Section,
};
use crate::rows::{table_canonical, RowProvider, TableModel};
use crate::walk_error::{after_reading, lemma_ran_failed, ran, WalkError, WalkErrorView};

verus! {

/// The width of the state.
pub const WIDTH: usize = 16;

/// The number of external rounds, half of which come before the internal rounds.
pub const NUM_EXTERNAL_ROUNDS: usize = 8;

/// The number of internal rounds.
pub const NUM_INTERNAL_ROUNDS: usize = 13;

/// The number of columns of a row.
pub const NUM_POSEIDON2_DEGREE3_COLS: u32 = 313;

/// Where the state before the internal rounds starts in a row.
pub const INTERNAL_STATE: usize = 128;

/// Where the first state elements after the internal rounds start.
pub const INTERNAL_S0: usize = 144;

/// Where the output starts.
pub const OUTPUT: usize = 156;

/// Where the cubes of the external rounds start.
pub const EXTERNAL_SBOX: usize = 172;

/// Where the cubes of the internal rounds start.
pub const INTERNAL_SBOX: usize = 300;

/// The field element `2^-32`, which scales the internal linear layer.
pub const MONTY_INVERSE: u32 = 943_718_400;

/// Coefficient `k` of the 4x4 block matrix applied to the four elements from `at` on.
pub open spec fn block_product(s: Seq<u32>, at: int, k: int) -> int {
    if k == 0 {
        2 * s[at] + 3 * s[at + 1] + s[at + 2] + s[at + 3]
    } else if k == 1 {
        s[at] + 2 * s[at + 1] + 3 * s[at + 2] + s[at + 3]
    } else if k == 2 {
        s[at] + s[at + 1] + 2 * s[at + 2] + 3 * s[at + 3]
    } else {
        3 * s[at] + s[at + 1] + s[at + 2] + 2 * s[at + 3]
    }
}

/// The external linear layer: the block matrix on each group of four, and to each element the sum
/// of the elements at its place in all four groups.
pub open spec fn external_layer(s: Seq<u32>) -> Seq<u32> {
    Seq::new(
        16,
        |i: int|
            ((block_product(s, i - i % 4, i % 4) + block_product(s, 0, i % 4) + block_product(
                s,
                4,
                i % 4,
            ) + block_product(s, 8, i % 4) + block_product(s, 12, i % 4)) % (
            BABYBEAR_P as int)) as u32,
    )
}

/// The sum of the first `n` elements.
pub open spec fn plain_sum(s: Seq<u32>, n: nat) -> int
    decreases n,
{
    if n == 0 {
        0
    } else {
        plain_sum(s, (n - 1) as nat) + s[n - 1]
    }
}

/// The diagonal of the internal layer: `-2`, the powers of two from 1 to `2^13`, and `2^15`.
pub open spec fn internal_diagonal(i: int) -> int {
    if i == 0 {
        BABYBEAR_P - 2
    } else if i == 15 {
        32768
    } else {
        vstd::arithmetic::power2::pow2((i - 1) as nat) as int
    }
}

/// The internal linear layer: `(sum + d_i * s_i) * 2^-32`.
pub open spec fn internal_layer(s: Seq<u32>) -> Seq<u32> {
    Seq::new(
        16,
        |i: int|
            (((plain_sum(s, 16) + internal_diagonal(i) * s[i]) * MONTY_INVERSE) % (
            BABYBEAR_P as int)) as u32,
    )
}

/// The row of round constants `RC_16_30_U32[round]` of `sp1_primitives`.
pub uninterp spec fn rc_16_30(round: nat) -> Seq<u32>;

/// The round constants of all rounds of the permutation, external and internal, in order.
pub open spec fn round_constants_model() -> Seq<Seq<u32>> {
    Seq::new(21, |r: int| rc_16_30(r as nat))
}

/// Calls `external_linear_layer_mut` of `sp1_core_machine` on BabyBear elements.
#[verifier::external_body]
pub(crate) fn apply_external_layer(state: &[u32]) -> (r: Vec<u32>)
    requires
        state@.len() == 16,
        canonical(state@),
    ensures
        r@ == external_layer(state@),
{
    let mut s: [BabyBear; 16] =
        core::array::from_fn(|i| BabyBear::from_canonical_u32(state[i]));
    external_linear_layer_mut(&mut s);
    s.iter().map(|x| x.as_canonical_u32()).collect()
}

/// Calls `internal_linear_layer_mut` of `sp1_core_machine` on BabyBear elements. Its matrix is the
/// all-ones matrix plus a diagonal, and the product is scaled by `2^-32`.
#[verifier::external_body]
pub(crate) fn apply_internal_layer(state: &[u32]) -> (r: Vec<u32>)
    requires
        state@.len() == 16,
        canonical(state@),
    ensures
        r@ == internal_layer(state@),
{
    let mut s: [BabyBear; 16] =
        core::array::from_fn(|i| BabyBear::from_canonical_u32(state[i]));
    internal_linear_layer_mut(&mut s);
    s.iter().map(|x| x.as_canonical_u32()).collect()
}

/// Reads a row of the constant table `RC_16_30_U32` of `sp1_primitives`, which has 30 rows of 16
/// constants, not all of them reduced.
#[verifier::external_body]
pub(crate) fn round_constants_row(round: usize) -> (r: Vec<u32>)
    requires
        round < 30,
    ensures
        r@ == rc_16_30(round as nat),
        r@.len() == 16,
{
    RC_16_30_U32[round].to_vec()
}

/// `x^3`.
pub open spec fn cube(x: u32) -> u32 {
    f_mul(f_mul(x, x), x)
}

/// `x^7`.
pub open spec fn seventh(x: u32) -> u32 {
    f_mul(f_mul(cube(x), cube(x)), x)
}

/// The index into the round constants of external round `r`.
pub open spec fn external_round_index(r: int) -> int {
    if r < 4 {
        r
    } else {
        r + 13
    }
}

/// The S-box inputs of external round `r`: the recorded state, through the linear layer before the
/// first round, plus the round constants.
pub open spec fn external_inputs(row: Seq<u32>, rc: Seq<Seq<u32>>, r: int) -> Seq<u32> {
    let recorded = row.subrange(16 * r, 16 * r + 16);
    let state = if r == 0 {
        external_layer(recorded)
    } else {
        recorded
    };
    Seq::new(16, |i: int| f_add(state[i], rc[external_round_index(r)][i]))
}

/// Where the state that external round `r` leads to is recorded.
pub open spec fn external_target(r: int) -> int {
    if r == 3 {
        INTERNAL_STATE as int
    } else if r == 7 {
        OUTPUT as int
    } else {
        16 * (r + 1)
    }
}

/// The state that external round `r` leads to.
pub open spec fn external_result(row: Seq<u32>, rc: Seq<Seq<u32>>, r: int) -> Seq<u32> {
    let a = external_inputs(row, rc, r);
    external_layer(Seq::new(16, |i: int| seventh(a[i])))
}

/// The residuals of external round `r`: 16 for the recorded cubes, 16 for the state it leads to.
pub open spec fn external_round(row: Seq<u32>, rc: Seq<Seq<u32>>, r: int) -> Seq<u32> {
    let a = external_inputs(row, rc, r);
    let s = external_result(row, rc, r);
    Seq::new(16, |i: int| flag(cube(a[i]) == row[EXTERNAL_SBOX + 16 * r + i])) + Seq::new(
        16,
        |i: int| flag(s[i] == row[external_target(r) + i]),
    )
}

/// The S-box input of internal round `r`.
pub open spec fn internal_input(row: Seq<u32>, rc: Seq<Seq<u32>>, r: int) -> u32 {
    f_add(
        if r == 0 {
            row[INTERNAL_STATE as int]
        } else {
            row[INTERNAL_S0 + r - 1]
        },
        rc[r + 4][0],
    )
}

/// The state after the first `r` internal rounds.
pub open spec fn internal_state(row: Seq<u32>, rc: Seq<Seq<u32>>, r: nat) -> Seq<u32>
    decreases r,
{
    if r == 0 {
        row.subrange(INTERNAL_STATE as int, INTERNAL_STATE + 16)
    } else {
        let before = internal_state(row, rc, (r - 1) as nat);
        internal_layer(before.update(0, seventh(internal_input(row, rc, r - 1))))
    }
}

/// The residuals of internal round `r`: one for the recorded cube and, but for the last round, one
/// for the recorded first state element.
pub open spec fn internal_round(row: Seq<u32>, rc: Seq<Seq<u32>>, r: int) -> Seq<u32> {
    let cubed = flag(cube(internal_input(row, rc, r)) == row[INTERNAL_SBOX + r]);
    if r < 12 {
        seq![
            cubed,
            flag(internal_state(row, rc, (r + 1) as nat)[0] == row[INTERNAL_S0 + r]),
        ]
    } else {
        seq![cubed]
    }
}

/// The residuals that tie the state after the internal rounds to the fifth external round.
pub open spec fn joint(row: Seq<u32>, rc: Seq<Seq<u32>>) -> Seq<u32> {
    Seq::new(16, |i: int| flag(internal_state(row, rc, 13)[i] == row[64 + i]))
}

/// The residuals of a row: the external rounds, the internal rounds, and the joint.
pub open spec fn poseidon2_residuals(row: Seq<u32>, rc: Seq<Seq<u32>>) -> Seq<u32> {
    lanes(|r: int| external_round(row, rc, r), 8) + lanes(|r: int| internal_round(row, rc, r), 13)
        + joint(row, rc)
}

/// The round constants as a matrix.
pub open spec fn matrix(rc: Seq<Vec<u32>>) -> Seq<Seq<u32>> {
    rc.map_values(|v: Vec<u32>| v@)
}

/// A table of 21 rows of 16 constants.
pub open spec fn constants_wf(rc: Seq<Seq<u32>>) -> bool {
    rc.len() == 21 && forall|r: int| 0 <= r < 21 ==> (#[trigger] rc[r]).len() == 16
}

/// The constraint, for given round constants.
pub struct Poseidon2WideDeg3 {
    pub round_constants: Vec<Vec<u32>>,
}

fn cube_of(x: u32) -> (r: u32)
    ensures
        r == cube(x),
{
    bb_mul(bb_mul(x, x), x)
}

fn seventh_of(x: u32) -> (r: u32)
    ensures
        r == seventh(x),
        r < BABYBEAR_P,
{
    let s3: u32 = cube_of(x);
    bb_mul(bb_mul(s3, s3), x)
}

fn sixteen(row: &[u32], at: usize) -> (r: Vec<u32>)
    requires
        at + 16 <= row@.len(),
        canonical(row@),
    ensures
        r@ == row@.subrange(at as int, at + 16),
        canonical(r@),
{
    let mut r: Vec<u32> = Vec::new();
    let cols: usize = row.len();
    let mut i: usize = 0;
    while i < 16
        invariant
            i <= 16,
            cols == row@.len(),
            at + 16 <= cols,
            r@ == row@.subrange(at as int, at + i),
        decreases 16 - i,
    {
        r.push(row[at + i]);
        assert(r@ =~= row@.subrange(at as int, at + i + 1));
        i += 1;
    }
    r
}

/// Appends one residual for each of 16 values that has to be recorded at its place in the row.
fn push_matches(out: &mut Vec<u32>, values: &[u32], row: &[u32], at: usize)
    requires
        values@.len() == 16,
        at + 16 <= row@.len(),
    ensures
        final(out)@ == old(out)@ + Seq::new(16, |i: int| flag(values@[i] == row@[at + i])),
{
    let ghost want = Seq::new(16, |i: int| flag(values@[i] == row@[at + i]));
    let ghost start = out@;
    let cols: usize = row.len();
    let mut i: usize = 0;
    assert(start + want.take(0) =~= start);
    while i < 16
        invariant
            i <= 16,
            values@.len() == 16,
            cols == row@.len(),
            at + 16 <= cols,
            want == Seq::new(16, |i: int| flag(values@[i] == row@[at + i])),
            out@ == start + want.take(i as int),
        decreases 16 - i,
    {
        out.push(residual(values[i] == row[at + i]));
        assert(start + want.take(i + 1) =~= (start + want.take(i as int)).push(want[i as int]));
        i += 1;
    }
    assert(want.take(16) =~= want);
}

impl Poseidon2WideDeg3 {
    /// The round constants that the check works with.
    pub open spec fn constants(self) -> Seq<Seq<u32>> {
        matrix(self.round_constants@)
    }

    /// The table of round constants has the shape that the permutation needs.
    pub open spec fn wf(self) -> bool {
        constants_wf(self.constants())
    }

    fn constant(&self, round: usize, i: usize) -> (r: u32)
        requires
            self.wf(),
            round < 21,
            i < 16,
        ensures
            r == matrix(self.round_constants@)[round as int][i as int],
    {
        assert(matrix(self.round_constants@)[round as int].len() == 16);
        self.round_constants[round][i]
    }

    /// The S-box inputs of an external round.
    fn inputs(&self, row: &[u32], r: usize) -> (a: Vec<u32>)
        requires
            self.wf(),
            r < 8,
            row@.len() == 313,
            canonical(row@),
        ensures
            a@ == external_inputs(row@, matrix(self.round_constants@), r as int),
            a@.len() == 16,
    {
        let ghost rc = matrix(self.round_constants@);
        let mut state = sixteen(row, 16 * r);
        if r == 0 {
            state = apply_external_layer(&state);
        }
        let round: usize = if r < NUM_EXTERNAL_ROUNDS / 2 {
            r
        } else {
            r + NUM_INTERNAL_ROUNDS
        };
        let ghost want = external_inputs(row@, rc, r as int);
        let mut a: Vec<u32> = Vec::new();
        let mut i: usize = 0;
        while i < 16
            invariant
                i <= 16,
                self.wf(),
                r < 8,
                round == external_round_index(r as int),
                rc == matrix(self.round_constants@),
                state@.len() == 16,
                want == Seq::new(
                    16,
                    |i: int| f_add(state@[i], rc[external_round_index(r as int)][i]),
                ),
                a@ == want.take(i as int),
            decreases 16 - i,
        {
            a.push(bb_add(state[i], self.constant(round, i)));
            assert(want.take(i + 1) =~= want.take(i as int).push(want[i as int]));
            i += 1;
        }
        assert(want.take(16) =~= want);
        a
    }

    fn external(&self, row: &[u32], r: usize, out: &mut Vec<u32>)
        requires
            self.wf(),
            r < 8,
            row@.len() == 313,
            canonical(row@),
        ensures
            final(out)@ == old(out)@ + external_round(
                row@,
                matrix(self.round_constants@),
                r as int,
            ),
    {
        let ghost rc = matrix(self.round_constants@);
        let ghost start = out@;
        let a = self.inputs(row, r);
        let ghost sevenths = Seq::new(16, |i: int| seventh(a@[i]));
        let ghost cubed = Seq::new(16, |i: int| cube(a@[i]));
        let mut cubes: Vec<u32> = Vec::new();
        let mut state: Vec<u32> = Vec::new();
        let mut i: usize = 0;
        while i < 16
            invariant
                i <= 16,
                a@.len() == 16,
                sevenths == Seq::new(16, |i: int| seventh(a@[i])),
                cubed == Seq::new(16, |i: int| cube(a@[i])),
                state@ == sevenths.take(i as int),
                cubes@ == cubed.take(i as int),
                canonical(state@),
            decreases 16 - i,
        {
            cubes.push(cube_of(a[i]));
            state.push(seventh_of(a[i]));
            assert(sevenths.take(i + 1) =~= sevenths.take(i as int).push(sevenths[i as int]));
            assert(cubed.take(i + 1) =~= cubed.take(i as int).push(cubed[i as int]));
            i += 1;
        }
        assert(sevenths.take(16) =~= sevenths);
        assert(cubed.take(16) =~= cubed);
        push_matches(out, &cubes, row, EXTERNAL_SBOX + 16 * r);
        let next = apply_external_layer(&state);
        let target: usize = if r == NUM_EXTERNAL_ROUNDS / 2 - 1 {
            INTERNAL_STATE
        } else if r == NUM_EXTERNAL_ROUNDS - 1 {
            OUTPUT
        } else {
            16 * (r + 1)
        };
        push_matches(out, &next, row, target);
        proof {
            assert(next@ == external_result(row@, rc, r as int));
            assert(out@ =~= start + external_round(row@, rc, r as int));
        }
    }

    fn internal(&self, row: &[u32], out: &mut Vec<u32>) -> (state: Vec<u32>)
        requires
            self.wf(),
            row@.len() == 313,
            canonical(row@),
        ensures
            final(out)@ == old(out)@ + lanes(
                |r: int| internal_round(row@, matrix(self.round_constants@), r),
                13,
            ),
            state@ == internal_state(row@, matrix(self.round_constants@), 13),
            state@.len() == 16,
    {
        let ghost rc = matrix(self.round_constants@);
        let ghost f = |r: int| internal_round(row@, rc, r);
        let ghost start = out@;
        let mut state = sixteen(row, INTERNAL_STATE);
        let mut r: usize = 0;
        assert(start + lanes(f, 0) =~= start);
        while r < NUM_INTERNAL_ROUNDS
            invariant
                r <= 13,
                self.wf(),
                row@.len() == 313,
                canonical(row@),
                rc == matrix(self.round_constants@),
                f == (|r: int| internal_round(row@, rc, r)),
                state@.len() == 16,
                canonical(state@),
                state@ == internal_state(row@, rc, r as nat),
                out@ == start + lanes(f, r as nat),
            decreases 13 - r,
        {
            let ghost before = out@;
            let first: u32 = if r == 0 {
                row[INTERNAL_STATE]
            } else {
                row[INTERNAL_S0 + r - 1]
            };
            let input: u32 = bb_add(first, self.constant(r + 4, 0));
            out.push(residual(cube_of(input) == row[INTERNAL_SBOX + r]));
            let s7: u32 = seventh_of(input);
            let ghost old_state = state@;
            state.set(0, s7);
            assert(state@ =~= old_state.update(0, seventh(internal_input(row@, rc, r as int))));
            state = apply_internal_layer(&state);
            if r < NUM_INTERNAL_ROUNDS - 1 {
                out.push(residual(state[0] == row[INTERNAL_S0 + r]));
            }
            proof {
                assert(out@ =~= before + internal_round(row@, rc, r as int));
                assert(f(r as int) == internal_round(row@, rc, r as int));
                assert(out@ =~= start + lanes(f, (r + 1) as nat));
            }
            r += 1;
        }
        state
    }
}

impl RowCheck for Poseidon2WideDeg3 {
    open spec fn residuals(&self, main: Seq<u32>, pre: Seq<u32>) -> Seq<u32> {
        poseidon2_residuals(main, matrix(self.round_constants@))
    }

    open spec fn accepts(&self, main_cols: nat, pre_cols: nat) -> bool {
        main_cols == 313 && self.wf()
    }

    fn check(&self, main: &[u32], pre: &[u32]) -> (r: Vec<u32>) {
        let ghost rc = matrix(self.round_constants@);
        let ghost f = |r: int| external_round(main@, rc, r);
        let mut out: Vec<u32> = Vec::new();
        let mut r: usize = 0;
        while r < NUM_EXTERNAL_ROUNDS
            invariant
                r <= 8,
                self.wf(),
                main@.len() == 313,
                canonical(main@),
                rc == matrix(self.round_constants@),
                f == (|r: int| external_round(main@, rc, r)),
                out@ == lanes(f, r as nat),
            decreases 8 - r,
        {
            self.external(main, r, &mut out);
            assert(f(r as int) == external_round(main@, rc, r as int));
            r += 1;
        }
        let state = self.internal(main, &mut out);
        push_matches(&mut out, &state, main, 64);
        proof {
            assert(Seq::new(16, |i: int| flag(state@[i] == main@[64 + i])) =~= joint(main@, rc));
        }
        out
    }
}

/// Fetches the round constants of all rounds.
pub fn round_constants() -> (r: Vec<Vec<u32>>)
    ensures
        matrix(r@) == round_constants_model(),
        constants_wf(matrix(r@)),
{
    let mut r: Vec<Vec<u32>> = Vec::new();
    let mut i: usize = 0;
    while i < 21
        invariant
            i <= 21,
            r@.len() == i,
            forall|k: int| 0 <= k < i ==> (#[trigger] r@[k])@ == rc_16_30(k as nat) && r@[k]@.len()
                == 16,
        decreases 21 - i,
    {
        r.push(round_constants_row(i));
        i += 1;
    }
    proof {
        assert(matrix(r@) =~= round_constants_model());
        assert forall|k: int| 0 <= k < 21 implies (#[trigger] matrix(r@)[k]).len() == 16 by {
            assert(matrix(r@)[k] == r@[k]@);
        }
    }
    r
}

/// What walking the chip does, for given round constants.
pub open spec fn poseidon2_outcome(
    tables: Map<Seq<char>, TableModel>,
    rc: Seq<Seq<u32>>,
) -> Outcome<WalkErrorView> {
    let main = "Poseidon2WideDeg3"@;
    let pre = "pre/Poseidon2WideDeg3"@;
    match pairing_error(tables, main, NUM_POSEIDON2_DEGREE3_COLS, pre, 49) {
        Some(e) => fails(e),
        None => in_sequence(poseidon2_steps(tables, rc), tables[main].rows as nat),
    }
}

/// What checking each row does, for given round constants.
pub open spec fn poseidon2_steps(tables: Map<Seq<char>, TableModel>, rc: Seq<Seq<u32>>) -> Seq<
    Outcome<WalkErrorView>,
> {
    let main = "Poseidon2WideDeg3"@;
    Seq::new(
        tables[main].rows as nat,
        |i: int|
            after_reading(
                tables,
                main,
                i as u32,
                emits(
                    row_emissions(
                        Section::Poseidon2WideDeg3,
                        Some(i as u32),
                        poseidon2_residuals(tables[main].data[i], rc),
                    ),
                ),
            ),
    )
}

/// Walks the chip, for given round constants. The preprocessed table only has to be there.
pub fn walk_poseidon2<P: RowProvider>(
    p: &mut P,
    log: &mut ResidualLog,
    check: &Poseidon2WideDeg3,
) -> (r: Result<(), WalkError>)
    requires
        check.wf(),
        table_canonical(old(p).tables(), "Poseidon2WideDeg3"@),
    ensures
        ran(
            *old(p),
            *final(p),
            old(log)@,
            final(log)@,
            r,
            poseidon2_outcome(old(p).tables(), check.constants()),
        ),
{
    proof {
        let tables = p.tables();
        let main = "Poseidon2WideDeg3"@;
        let rc = matrix(check.round_constants@);
        assert(row_check_steps(
            *check,
            Section::Poseidon2WideDeg3,
            tables,
            main,
            None,
            tables[main].rows as nat,
        ) =~= poseidon2_steps(tables, rc));
    }
    match paired_rows(
        p,
        "Poseidon2WideDeg3",
        NUM_POSEIDON2_DEGREE3_COLS,
        "pre/Poseidon2WideDeg3",
        49,
    ) {
        Ok(_) => {},
        Err(e) => {
            proof {
                lemma_ran_failed(*p, log@, e);
            }
            return Err(e);
        },
    }
    walk_rows(p, log, check, Section::Poseidon2WideDeg3, "Poseidon2WideDeg3", None)
}

} // verus!
