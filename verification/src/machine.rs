//! The chips of the shrink machine, as plain values.

use p3_air::PairCol;
use p3_baby_bear::BabyBear;
use p3_field::PrimeField32;
use sp1_recursion_core::machine::RecursionAir;
use sp1_stark::air::{InteractionScope, MachineAir};
use sp1_stark::baby_bear_poseidon2::BabyBearPoseidon2;
use vstd::prelude::*;

verus! {

/// The number of chips of the shrink machine.
pub const NUM_SHRINK_CHIPS: usize = 9;

/// An affine function of the columns of a row. Each weight goes with a column; `main` tells whether
/// it is a column of the main trace or of the preprocessed trace.
#[derive(Debug)]
pub struct VirtualColumn {
    pub weights: Vec<(bool, usize, u32)>,
    pub constant: u32,
}

/// The mathematical reading of a [`VirtualColumn`].
#[verifier::ext_equal]
pub struct ColumnView {
    pub weights: Seq<(bool, usize, u32)>,
    pub constant: u32,
}

impl View for VirtualColumn {
    type V = ColumnView;

    open spec fn view(&self) -> ColumnView {
        ColumnView { weights: self.weights@, constant: self.constant }
    }
}

/// An interaction of local scope, which a chip either sends or receives.
#[derive(Debug)]
pub struct SignedInteraction {
    pub is_send: bool,
    pub argument_index: usize,
    pub values: Vec<VirtualColumn>,
    pub multiplicity: VirtualColumn,
}

/// The mathematical reading of a [`SignedInteraction`].
#[verifier::ext_equal]
pub struct InteractionView {
    pub is_send: bool,
    pub argument_index: nat,
    pub values: Seq<ColumnView>,
    pub multiplicity: ColumnView,
}

impl View for SignedInteraction {
    type V = InteractionView;

    open spec fn view(&self) -> InteractionView {
        InteractionView {
            is_send: self.is_send,
            argument_index: self.argument_index as nat,
            values: columns_view(self.values@),
            multiplicity: self.multiplicity@,
        }
    }
}

/// The readings of a list of columns.
pub open spec fn columns_view(columns: Seq<VirtualColumn>) -> Seq<ColumnView> {
    columns.map_values(|c: VirtualColumn| c@)
}

/// A chip: what the permutation argument needs to know of it. The interactions are those of local
/// scope, the sends before the receives.
#[derive(Debug)]
pub struct ChipInfo {
    pub name: String,
    pub permutation_width: usize,
    pub batch_size: usize,
    pub commits_locally: bool,
    /// The number of interactions of any scope.
    pub num_interactions: usize,
    pub interactions: Vec<SignedInteraction>,
}

/// The mathematical reading of a [`ChipInfo`].
#[verifier::ext_equal]
pub struct ChipView {
    pub name: Seq<char>,
    pub permutation_width: nat,
    pub batch_size: nat,
    pub commits_locally: bool,
    pub num_interactions: nat,
    pub interactions: Seq<InteractionView>,
}

impl View for ChipInfo {
    type V = ChipView;

    open spec fn view(&self) -> ChipView {
        ChipView {
            name: self.name@,
            permutation_width: self.permutation_width as nat,
            batch_size: self.batch_size as nat,
            commits_locally: self.commits_locally,
            num_interactions: self.num_interactions as nat,
            interactions: interactions_view(self.interactions@),
        }
    }
}

/// The readings of a list of interactions.
pub open spec fn interactions_view(list: Seq<SignedInteraction>) -> Seq<InteractionView> {
    list.map_values(|x: SignedInteraction| x@)
}

/// The readings of a list of chips.
pub open spec fn chips_view(chips: Seq<ChipInfo>) -> Seq<ChipView> {
    chips.map_values(|c: ChipInfo| c@)
}

/// What a chip says of itself: its name and sizes, and for each interaction that it sends or
/// receives the argument index and whether its scope is local.
#[derive(Debug)]
pub struct ChipHeader {
    pub name: String,
    pub permutation_width: usize,
    pub batch_size: usize,
    pub commits_locally: bool,
    pub num_interactions: usize,
    pub sends: Vec<(usize, bool)>,
    pub receives: Vec<(usize, bool)>,
}

/// The mathematical reading of a [`ChipHeader`].
#[verifier::ext_equal]
pub struct HeaderView {
    pub name: Seq<char>,
    pub permutation_width: nat,
    pub batch_size: nat,
    pub commits_locally: bool,
    pub num_interactions: nat,
    pub sends: Seq<(usize, bool)>,
    pub receives: Seq<(usize, bool)>,
}

impl View for ChipHeader {
    type V = HeaderView;

    open spec fn view(&self) -> HeaderView {
        HeaderView {
            name: self.name@,
            permutation_width: self.permutation_width as nat,
            batch_size: self.batch_size as nat,
            commits_locally: self.commits_locally,
            num_interactions: self.num_interactions as nat,
            sends: self.sends@,
            receives: self.receives@,
        }
    }
}

impl HeaderView {
    /// The interactions on one side.
    pub open spec fn side(self, send: bool) -> Seq<(usize, bool)> {
        if send {
            self.sends
        } else {
            self.receives
        }
    }
}

/// What chip number `chip` of the shrink machine says of itself.
pub uninterp spec fn shrink_chip_header(chip: nat) -> HeaderView;

/// The columns of interaction `j` that chip number `chip` of the shrink machine sends or receives:
/// those of its values, and then that of its multiplicity.
pub uninterp spec fn shrink_chip_columns(chip: nat, send: bool, j: nat) -> Seq<ColumnView>;

/// Builds `RecursionAir::<BabyBear, 3>::shrink_machine` of `sp1_recursion_core` with the compressed
/// configuration of `sp1_stark` and reads off chip number `i`: its name, `permutation_width`,
/// `logup_batch_size`, `commit_scope`, `num_interactions`, and the argument index and scope of each
/// of its `sends` and `receives`. The configuration parses the environment variable `FRI_QUERIES`
/// where it is set, and panics where that is no number.
#[verifier::external_body]
pub(crate) fn read_chip_header(i: usize) -> (r: ChipHeader)
    requires
        i < NUM_SHRINK_CHIPS,
    ensures
        r@ == shrink_chip_header(i as nat),
{
    let machine = RecursionAir::<BabyBear, 3>::shrink_machine(BabyBearPoseidon2::compressed());
    let c = &machine.chips()[i];
    ChipHeader {
        name: c.name(),
        permutation_width: c.permutation_width(),
        batch_size: c.logup_batch_size(),
        commits_locally: c.commit_scope() == InteractionScope::Local,
        num_interactions: c.num_interactions(),
        sends: c.sends().iter()
            .map(|x| (x.argument_index(), x.scope == InteractionScope::Local)).collect(),
        receives: c.receives().iter()
            .map(|x| (x.argument_index(), x.scope == InteractionScope::Local)).collect(),
    }
}

/// Builds the same machine and reads off the columns of one interaction of chip number `i`: the
/// `column_weights` and `constant` of each of its `values` and, last, of its `multiplicity`. As there,
/// the configuration panics where the environment variable `FRI_QUERIES` is set and is no number.
#[verifier::external_body]
pub(crate) fn read_chip_columns(i: usize, send: bool, j: usize) -> (r: Vec<VirtualColumn>)
    requires
        i < NUM_SHRINK_CHIPS,
        j < shrink_chip_header(i as nat).side(send).len(),
    ensures
        columns_view(r@) == shrink_chip_columns(i as nat, send, j as nat),
        r@.len() >= 1,
{
    let machine = RecursionAir::<BabyBear, 3>::shrink_machine(BabyBearPoseidon2::compressed());
    let c = &machine.chips()[i];
    let x = &(if send { c.sends() } else { c.receives() })[j];
    x.values.iter().chain([&x.multiplicity]).map(|v| VirtualColumn {
        weights: v.column_weights.iter().map(|(p, w)| match p {
            PairCol::Preprocessed(k) => (false, *k, w.as_canonical_u32()),
            PairCol::Main(k) => (true, *k, w.as_canonical_u32()),
        }).collect(),
        constant: v.constant.as_canonical_u32(),
    }).collect()
}

/// Interaction `j` on one side of chip number `chip` of the shrink machine.
pub open spec fn shrink_interaction(chip: nat, send: bool, j: int) -> InteractionView {
    let columns = shrink_chip_columns(chip, send, j as nat);
    InteractionView {
        is_send: send,
        argument_index: shrink_chip_header(chip).side(send)[j].0 as nat,
        values: columns.drop_last(),
        multiplicity: columns.last(),
    }
}

/// The interactions of local scope among the first `n` on one side of a chip.
pub open spec fn shrink_local_interactions(chip: nat, send: bool, n: nat) -> Seq<InteractionView>
    decreases n,
{
    if n == 0 {
        Seq::empty()
    } else {
        let before = shrink_local_interactions(chip, send, (n - 1) as nat);
        if shrink_chip_header(chip).side(send)[n - 1].1 {
            before.push(shrink_interaction(chip, send, n - 1))
        } else {
            before
        }
    }
}

/// Chip number `chip` of the shrink machine.
pub open spec fn shrink_chip(chip: nat) -> ChipView {
    let h = shrink_chip_header(chip);
    ChipView {
        name: h.name,
        permutation_width: h.permutation_width,
        batch_size: h.batch_size,
        commits_locally: h.commits_locally,
        num_interactions: h.num_interactions,
        interactions: shrink_local_interactions(chip, true, h.sends.len())
            + shrink_local_interactions(chip, false, h.receives.len()),
    }
}

/// The chips of the shrink machine, in order.
pub open spec fn shrink_chips_model() -> Seq<ChipView> {
    Seq::new(NUM_SHRINK_CHIPS as nat, |i: int| shrink_chip(i as nat))
}

/// Appends the interactions of local scope on one side of a chip.
fn push_local_interactions(
    i: usize,
    send: bool,
    kinds: &[(usize, bool)],
    out: &mut Vec<SignedInteraction>,
)
    requires
        i < NUM_SHRINK_CHIPS,
        kinds@ == shrink_chip_header(i as nat).side(send),
    ensures
        interactions_view(final(out)@) == interactions_view(old(out)@) + shrink_local_interactions(
            i as nat,
            send,
            kinds@.len(),
        ),
{
    let ghost start = interactions_view(out@);
    let mut j: usize = 0;
    assert(start + shrink_local_interactions(i as nat, send, 0) =~= start);
    while j < kinds.len()
        invariant
            j <= kinds@.len(),
            i < NUM_SHRINK_CHIPS,
            kinds@ == shrink_chip_header(i as nat).side(send),
            interactions_view(out@) == start + shrink_local_interactions(i as nat, send, j as nat),
        decreases kinds@.len() - j,
    {
        let (argument_index, local) = kinds[j];
        if local {
            let ghost before = out@;
            let mut values = read_chip_columns(i, send, j);
            let ghost columns = values@;
            let multiplicity = match values.pop() {
                Some(c) => c,
                None => VirtualColumn { weights: Vec::new(), constant: 0 },
            };
            let x = SignedInteraction { is_send: send, argument_index, values, multiplicity };
            proof {
                assert(columns_view(values@) =~= columns_view(columns).drop_last());
                assert(x@ =~= shrink_interaction(i as nat, send, j as int));
                assert(interactions_view(before.push(x)) =~= interactions_view(before).push(x@));
            }
            out.push(x);
            assert(interactions_view(out@) =~= start + shrink_local_interactions(
                i as nat,
                send,
                (j + 1) as nat,
            ));
        }
        j += 1;
    }
}

/// Fetches the chips of the shrink machine.
pub fn shrink_chips() -> (r: Vec<ChipInfo>)
    ensures
        chips_view(r@) == shrink_chips_model(),
{
    let mut r: Vec<ChipInfo> = Vec::new();
    let mut i: usize = 0;
    while i < NUM_SHRINK_CHIPS
        invariant
            i <= NUM_SHRINK_CHIPS,
            r@.len() == i,
            forall|k: int| 0 <= k < i ==> (#[trigger] r@[k])@ == shrink_chip(k as nat),
        decreases NUM_SHRINK_CHIPS - i,
    {
        let h = read_chip_header(i);
        let mut interactions: Vec<SignedInteraction> = Vec::new();
        push_local_interactions(i, true, &h.sends, &mut interactions);
        push_local_interactions(i, false, &h.receives, &mut interactions);
        let c = ChipInfo {
            name: h.name,
            permutation_width: h.permutation_width,
            batch_size: h.batch_size,
            commits_locally: h.commits_locally,
            num_interactions: h.num_interactions,
            interactions,
        };
        assert(c@ =~= shrink_chip(i as nat)) by {
            assert(interactions_view(Seq::empty()) =~= Seq::<InteractionView>::empty());
        }
        r.push(c);
        i += 1;
    }
    assert(chips_view(r@) =~= shrink_chips_model());
    r
}

} // verus!
