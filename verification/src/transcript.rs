//! The transcript that the permutation challenges are drawn from.

use p3_baby_bear::BabyBear;
use p3_challenger::{CanObserve, FieldChallenger};
use p3_commit::Pcs;
use p3_field::{AbstractExtensionField, AbstractField, PrimeField32};
use p3_matrix::dense::RowMajorMatrix;
use p3_matrix::Matrix;
use sp1_stark::baby_bear_poseidon2::BabyBearPoseidon2;
use sp1_stark::{InnerChallenge, InnerChallenger, InnerDigestHash, InnerPcs, StarkGenericConfig};
use vstd::arithmetic::power2::pow2;
use vstd::prelude::*;

use crate::babybear::canonical;
use crate::extension::{e_block, ext_from_row, BBExt};
use crate::matrix::{MatrixView, RowMatrix};

verus! {

/// How many public values a proof of the shrink machine exposes, and the transcript observes.
pub const NUM_PUBLIC_VALUES: usize = 231;

/// The binary logarithm of the greatest height that can be committed to. With the blow-up of the
/// commitment the evaluation domain is four times as large, and the field has no domain beyond
/// `2^27`.
pub const MAX_LOG_HEIGHT: usize = 25;

/// A height that can be committed to.
pub open spec fn is_commit_height(n: nat) -> bool {
    exists|k: nat| k <= MAX_LOG_HEIGHT && n == #[trigger] pow2(k)
}

/// A matrix that can be committed to.
pub open spec fn committable(m: MatrixView) -> bool {
    &&& m.width > 0
    &&& m.values.len() == m.width * m.height()
    &&& is_commit_height(m.height())
    &&& canonical(m.values)
}

/// The readings of a list of matrices.
pub open spec fn matrices_view(list: Seq<RowMatrix>) -> Seq<MatrixView> {
    list.map_values(|m: RowMatrix| m@)
}

/// The commitment to a list of traces.
pub uninterp spec fn trace_commitment(traces: Seq<MatrixView>) -> Seq<u32>;

/// The limbs of the two challenges that the transcript gives after public values and a commitment.
pub uninterp spec fn challenge_limbs(public_values: Seq<u32>, commitment: Seq<u32>) -> Seq<u32>;

/// Calls `commit` of the polynomial commitment scheme of the compressed configuration of
/// `sp1_stark`, on each trace over its natural domain. The result is the root of a Merkle tree: eight
/// canonical field elements that depend on the traces alone. The configuration parses the environment
/// variable `FRI_QUERIES` where it is set, and panics where that is no number; the number has no
/// influence on the commitment.
#[verifier::external_body]
pub(crate) fn commit_traces(traces: &[RowMatrix]) -> (r: [u32; 8])
    requires
        traces@.len() > 0,
        forall|i: int| 0 <= i < traces@.len() ==> committable((#[trigger] traces@[i])@),
    ensures
        r@ == trace_commitment(matrices_view(traces@)),
        canonical(r@),
{
    let config = BabyBearPoseidon2::compressed();
    let pcs: &InnerPcs = config.pcs();
    let mut evaluations = Vec::new();
    for t in traces {
        let values = t.values.iter().copied().map(BabyBear::from_canonical_u32).collect();
        let m: RowMajorMatrix<BabyBear> = RowMajorMatrix::new(values, t.width);
        let domain = <InnerPcs as Pcs<InnerChallenge, InnerChallenger>>::natural_domain_for_degree(
            pcs, m.height());
        evaluations.push((domain, m));
    }
    let (root, _) = <InnerPcs as Pcs<InnerChallenge, InnerChallenger>>::commit(pcs, evaluations);
    <[BabyBear; 8]>::from(root).map(|x| x.as_canonical_u32())
}

/// Takes a fresh challenger of the compressed configuration of `sp1_stark`, lets it `observe_slice`
/// the public values and `observe` the commitment, and draws two extension elements with
/// `sample_ext_element`. The result is the canonical limbs of the first and then of the second. The
/// configuration parses the environment variable `FRI_QUERIES` where it is set, and panics where that
/// is no number; the number has no influence on the challenges.
#[verifier::external_body]
pub(crate) fn draw_challenges(public_values: &[u32], commitment: [u32; 8]) -> (r: Vec<u32>)
    requires
        canonical(public_values@),
        canonical(commitment@),
    ensures
        r@ == challenge_limbs(public_values@, commitment@),
        r@.len() == 8,
        canonical(r@),
{
    let mut challenger = BabyBearPoseidon2::compressed().challenger();
    let observed: Vec<BabyBear> =
        public_values.iter().copied().map(BabyBear::from_canonical_u32).collect();
    challenger.observe_slice(&observed);
    challenger.observe(InnerDigestHash::from(commitment.map(BabyBear::from_canonical_u32)));
    let alpha: InnerChallenge = challenger.sample_ext_element();
    let beta: InnerChallenge = challenger.sample_ext_element();
    [alpha, beta].iter()
        .flat_map(|e| <InnerChallenge as AbstractExtensionField<BabyBear>>::as_base_slice(e))
        .map(|x| x.as_canonical_u32()).collect()
}

/// The challenges `(alpha, beta)` after public values and traces.
pub open spec fn challenges(public_values: Seq<u32>, traces: Seq<MatrixView>) -> (BBExt, BBExt) {
    let limbs = challenge_limbs(
        public_values.take(NUM_PUBLIC_VALUES as int),
        trace_commitment(traces),
    );
    (e_block(limbs, 0), e_block(limbs, 4))
}

/// Tells whether a height can be committed to.
pub fn is_committable_height(n: usize) -> (r: bool)
    ensures
        r == is_commit_height(n as nat),
{
    let mut k: usize = 0;
    let mut power: usize = 1;
    proof {
        vstd::arithmetic::power2::lemma2_to64();
    }
    while k < MAX_LOG_HEIGHT
        invariant
            k <= MAX_LOG_HEIGHT,
            power == pow2(k as nat),
            power <= 0x200_0000,
            forall|j: nat| j < k ==> n != #[trigger] pow2(j),
        decreases MAX_LOG_HEIGHT - k,
    {
        if n == power {
            return true;
        }
        proof {
            vstd::arithmetic::power2::lemma_pow2_unfold((k + 1) as nat);
            vstd::arithmetic::power2::lemma2_to64();
            if k + 1 < 25 {
                vstd::arithmetic::power2::lemma_pow2_strictly_increases((k + 1) as nat, 25);
            }
        }
        power = power * 2;
        k += 1;
    }
    n == power
}

/// Draws the challenges `(alpha, beta)`: the transcript observes the first public values and the
/// commitment to the traces.
pub fn derive_challenges(public_values: &[u32], traces: &[RowMatrix]) -> (r: (BBExt, BBExt))
    requires
        public_values@.len() >= NUM_PUBLIC_VALUES,
        canonical(public_values@),
        traces@.len() > 0,
        forall|i: int| 0 <= i < traces@.len() ==> committable((#[trigger] traces@[i])@),
    ensures
        r == challenges(public_values@, matrices_view(traces@)),
        r.0.wf(),
        r.1.wf(),
{
    let mut observed: Vec<u32> = Vec::new();
    let mut i: usize = 0;
    while i < NUM_PUBLIC_VALUES
        invariant
            i <= NUM_PUBLIC_VALUES,
            public_values@.len() >= NUM_PUBLIC_VALUES,
            canonical(public_values@),
            observed@ == public_values@.take(i as int),
        decreases NUM_PUBLIC_VALUES - i,
    {
        observed.push(public_values[i]);
        i += 1;
    }
    let limbs = draw_challenges(&observed, commit_traces(traces));
    (ext_from_row(&limbs, 0), ext_from_row(&limbs, 4))
}

} // verus!
