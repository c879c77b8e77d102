//! What holds of the residual stream and its tag as a whole.

use vstd::arithmetic::div_mod::{lemma_add_mod_noop, lemma_mod_bound};
use vstd::arithmetic::power2::pow2;
use vstd::prelude::*;

use crate::binding::{
    binding_trace, challenges_error, first_gathering_error, first_uncommittable, gathering_error,
    main_traces, permutation_outcome, rows_concat, trace_names, trace_of, transcript_error,
};
use crate::bytes::le_value;
use crate::chips::base_alu::{base_alu_outcome, base_alu_residuals, base_lane_at, BaseAlu};
use crate::chips::batch_fri::{batch_fri_outcome, BatchFri};
use crate::chips::exp_reverse_bits::{exp_reverse_bits_outcome, ExpReverseBits};
use crate::chips::ext_alu::{ext_alu_outcome, ext_alu_residuals, ext_lane, ExtAlu};
use crate::chips::lanes;
use crate::chips::poseidon2::{
    external_round, internal_round, joint, poseidon2_outcome, poseidon2_residuals, poseidon2_steps,
};
use crate::chips::public_values::{public_values_outcome, PublicValues};
use crate::chips::select::{select_outcome, SelectMain, SelectPre};
use crate::constraints::{
    link_step, row_check_outcome, row_check_steps, row_of, transition_outcome, transition_steps,
    RowCheck, TransitionCheck,
};
use crate::digest::sha256;
use crate::export::{
    all_permutation_tables, challenge_row, exported, first_bad_trace, in_order, order_of, row_table,
    tables_in_order, trace_table, ExportErrorView, TraceView,
};
use crate::extension::{e_block, BBExt};
use crate::machine::{shrink_chips_model, ChipView};
use crate::matrix::MatrixView;
use crate::names::lemma_sorted_by_name;
use crate::permutation::{
    chip_outcome, chip_steps, chips_outcome, permutation_row, permutation_steps,
};
use crate::pvor::reader::container_tables;
use crate::pvor::round_trip::{infos_of, law_written_tables_are_served, written_model};
use crate::pvor::writer::{write_tables, MetaView};
use crate::residuals::{
    emits, first_nonzero, followed_by, in_sequence, row_emissions, values_of, Emission, LogView,
    Outcome, Section,
};
use crate::rows::{agree, law_equal_answers_mean_equal_tables, RowProvider, TableModel};
use crate::stream::{
    law_stream_can_be_read, stream_bytes, streamed, zeros, ShrinkResidualStreamParams,
    ShrinkResidualStreamResult, StreamError, HEADER_LEN,
};
use crate::tag::{
    alpha_of, coefficient, is_answer, lemma_primes_positive, tag_limb, tag_of, tag_result, text_bytes,
    weighted_sum, ShrinkTagResult, TagError, TagParamsView, P64_CANDIDATES,
};
use crate::transcript::{challenges, committable, MAX_LOG_HEIGHT, NUM_PUBLIC_VALUES};
use crate::walk::{local_outcome, local_steps, shrink_outcome};
use crate::walk_error::{ran, WalkError, WalkErrorView};

verus! {

/// Every value is 0 or 1.
pub open spec fn all_flags(s: Seq<u32>) -> bool {
    forall|i: int| 0 <= i < s.len() ==> #[trigger] s[i] <= 1
}

/// Every emission has a value of 0 or 1.
pub open spec fn emits_flags(trace: Seq<Emission>) -> bool {
    forall|i: int| 0 <= i < trace.len() ==> (#[trigger] trace[i]).value <= 1
}

proof fn lemma_lanes_flags(f: spec_fn(int) -> Seq<u32>, n: nat)
    requires
        forall|l: int| all_flags(#[trigger] f(l)),
    ensures
        all_flags(lanes(f, n)),
    decreases n,
{
    if n > 0 {
        lemma_lanes_flags(f, (n - 1) as nat);
        assert(all_flags(f(n - 1)));
    }
}

proof fn lemma_emissions_flags(section: Section, row: Option<u32>, values: Seq<u32>)
    requires
        all_flags(values),
    ensures
        emits_flags(row_emissions(section, row, values)),
{
    let t = row_emissions(section, row, values);
    assert forall|i: int| 0 <= i < t.len() implies (#[trigger] t[i]).value <= 1 by {
        assert(values[i] <= 1);
    }
}

proof fn lemma_sequence_flags(steps: Seq<Outcome<WalkErrorView>>, n: nat)
    requires
        n <= steps.len(),
        forall|i: int| 0 <= i < n ==> emits_flags((#[trigger] steps[i]).trace),
    ensures
        emits_flags(in_sequence(steps, n).trace),
    decreases n,
{
    if n > 0 {
        lemma_sequence_flags(steps, (n - 1) as nat);
        lemma_followed_flags(in_sequence(steps, (n - 1) as nat), steps[n - 1]);
    }
}

proof fn lemma_followed_flags(a: Outcome<WalkErrorView>, b: Outcome<WalkErrorView>)
    requires
        emits_flags(a.trace),
        emits_flags(b.trace),
    ensures
        emits_flags(followed_by(a, b).trace),
{
    let t = followed_by(a, b).trace;
    assert forall|i: int| 0 <= i < t.len() implies (#[trigger] t[i]).value <= 1 by {
        if i < a.trace.len() {
            assert(t[i] == a.trace[i]);
        } else {
            assert(t[i] == b.trace[i - a.trace.len()]);
        }
    }
}

proof fn lemma_base_alu_flags(main: Seq<u32>, pre: Seq<u32>)
    ensures
        all_flags(base_alu_residuals(main, pre)),
{
    let f = base_lane_at(main, pre);
    assert forall|l: int| all_flags(#[trigger] f(l)) by {}
    lemma_lanes_flags(f, 4);
}

proof fn lemma_ext_alu_flags(main: Seq<u32>, pre: Seq<u32>, n: nat)
    ensures
        all_flags(ext_alu_residuals(main, pre, n)),
{
    let f = |l: int| ext_lane(main, pre, l);
    assert forall|l: int| all_flags(#[trigger] f(l)) by {}
    lemma_lanes_flags(f, n);
}

proof fn lemma_poseidon2_flags(row: Seq<u32>, rc: Seq<Seq<u32>>)
    ensures
        all_flags(poseidon2_residuals(row, rc)),
{
    let f = |r: int| external_round(row, rc, r);
    let g = |r: int| internal_round(row, rc, r);
    assert forall|r: int| all_flags(#[trigger] f(r)) by {}
    assert forall|r: int| all_flags(#[trigger] g(r)) by {}
    lemma_lanes_flags(f, 8);
    lemma_lanes_flags(g, 13);
    assert(all_flags(joint(row, rc)));
}

proof fn lemma_row_check_flags<C: RowCheck>(
    c: C,
    section: Section,
    tables: Map<Seq<char>, TableModel>,
    main: Seq<char>,
    pre: Option<Seq<char>>,
    n: nat,
)
    requires
        forall|m: Seq<u32>, q: Seq<u32>| all_flags(#[trigger] c.residuals(m, q)),
    ensures
        emits_flags(row_check_outcome(c, section, tables, main, pre, n).trace),
{
    let steps = row_check_steps(c, section, tables, main, pre, n);
    assert forall|i: int| 0 <= i < n implies emits_flags((#[trigger] steps[i]).trace) by {
        lemma_emissions_flags(
            section,
            Some(i as u32),
            c.residuals(tables[main].data[i], row_of(tables, pre, i)),
        );
    }
    lemma_sequence_flags(steps, n);
}

proof fn lemma_transition_check_flags<C: TransitionCheck>(
    c: C,
    section: Section,
    tables: Map<Seq<char>, TableModel>,
    main: Seq<char>,
    pre: Seq<char>,
    rows: nat,
)
    requires
        forall|row: u32, m: Seq<u32>, q: Seq<u32>| all_flags(#[trigger] c.residuals(row, m, q)),
        forall|m: Seq<u32>, q: Seq<u32>, m1: Seq<u32>, q1: Seq<u32>|
            all_flags(#[trigger] c.links(m, q, m1, q1)),
    ensures
        emits_flags(transition_outcome(c, section, tables, main, pre, rows).trace),
{
    let steps = transition_steps(c, section, tables, main, pre, rows);
    assert forall|i: int| 0 <= i < rows implies emits_flags((#[trigger] steps[i]).trace) by {
        let row = Some(i as u32);
        let values = c.residuals(i as u32, tables[main].data[i], tables[pre].data[i]);
        let next_pre = if c.looks_at_next_pre() {
            tables[pre].data[i + 1]
        } else {
            Seq::empty()
        };
        lemma_emissions_flags(section, row, values);
        lemma_emissions_flags(section, row, zeros(c.num_links()));
        lemma_emissions_flags(
            section,
            row,
            c.links(
                tables[main].data[i],
                tables[pre].data[i],
                tables[main].data[i + 1],
                next_pre,
            ),
        );
        lemma_followed_flags(
            emits(row_emissions(section, row, values)),
            link_step(c, section, tables, main, pre, rows, i),
        );
    }
    lemma_sequence_flags(steps, rows);
}

proof fn lemma_select_flags(tables: Map<Seq<char>, TableModel>)
    ensures
        emits_flags(select_outcome(tables).trace),
{
    let rows = tables["Select"@].rows as nat;
    lemma_row_check_flags(SelectMain, Section::Select, tables, "Select"@, None, rows);
    lemma_row_check_flags(SelectPre, Section::Select, tables, "pre/Select"@, None, rows);
    lemma_followed_flags(
        row_check_outcome(SelectMain, Section::Select, tables, "Select"@, None, rows),
        row_check_outcome(SelectPre, Section::Select, tables, "pre/Select"@, None, rows),
    );
}

proof fn lemma_public_values_flags(tables: Map<Seq<char>, TableModel>)
    ensures
        emits_flags(public_values_outcome(tables).trace),
{
    lemma_row_check_flags(
        PublicValues,
        Section::PublicValues,
        tables,
        "PublicValues"@,
        Some("pre/PublicValues"@),
        tables["PublicValues"@].rows as nat,
    );
}

proof fn lemma_alu_flags(tables: Map<Seq<char>, TableModel>)
    ensures
        emits_flags(base_alu_outcome(tables).trace),
        emits_flags(ext_alu_outcome(tables).trace),
{
    assert forall|m: Seq<u32>, q: Seq<u32>| all_flags(#[trigger] BaseAlu.residuals(m, q)) by {
        lemma_base_alu_flags(m, q);
    }
    lemma_row_check_flags(
        BaseAlu,
        Section::BaseAlu,
        tables,
        "BaseAlu"@,
        Some("pre/BaseAlu"@),
        tables["BaseAlu"@].rows as nat,
    );
    let c = ExtAlu { lanes: tables["pre/ExtAlu"@].cols / 8 };
    assert forall|m: Seq<u32>, q: Seq<u32>| all_flags(#[trigger] c.residuals(m, q)) by {
        lemma_ext_alu_flags(m, q, c.lanes as nat);
    }
    lemma_row_check_flags(
        c,
        Section::ExtAlu,
        tables,
        "ExtAlu"@,
        Some("pre/ExtAlu"@),
        tables["ExtAlu"@].rows as nat,
    );
}

proof fn lemma_batch_fri_flags(tables: Map<Seq<char>, TableModel>)
    ensures
        emits_flags(batch_fri_outcome(tables).trace),
{
    let rows = tables["BatchFRI"@].rows as nat;
    lemma_transition_check_flags(
        BatchFri,
        Section::BatchFri,
        tables,
        "BatchFRI"@,
        "pre/BatchFRI"@,
        rows,
    );
}

proof fn lemma_exp_reverse_bits_flags(tables: Map<Seq<char>, TableModel>)
    ensures
        emits_flags(exp_reverse_bits_outcome(tables).trace),
{
    let rows = tables["ExpReverseBitsLen"@].rows as nat;
    lemma_transition_check_flags(
        ExpReverseBits,
        Section::ExpReverseBitsLen,
        tables,
        "ExpReverseBitsLen"@,
        "pre/ExpReverseBitsLen"@,
        rows,
    );
}

proof fn lemma_poseidon2_table_flags(tables: Map<Seq<char>, TableModel>, rc: Seq<Seq<u32>>)
    ensures
        emits_flags(poseidon2_outcome(tables, rc).trace),
{
    let steps = poseidon2_steps(tables, rc);
    assert forall|i: int| 0 <= i < steps.len() implies emits_flags((#[trigger] steps[i]).trace) by {
        let values = poseidon2_residuals(tables["Poseidon2WideDeg3"@].data[i], rc);
        lemma_poseidon2_flags(tables["Poseidon2WideDeg3"@].data[i], rc);
        lemma_emissions_flags(Section::Poseidon2WideDeg3, Some(i as u32), values);
    }
    lemma_sequence_flags(steps, steps.len());
}

proof fn lemma_local_flags(tables: Map<Seq<char>, TableModel>, rc: Seq<Seq<u32>>)
    ensures
        emits_flags(local_outcome(tables, rc).trace),
{
    lemma_select_flags(tables);
    lemma_public_values_flags(tables);
    lemma_alu_flags(tables);
    lemma_batch_fri_flags(tables);
    lemma_exp_reverse_bits_flags(tables);
    lemma_poseidon2_table_flags(tables, rc);
    lemma_sequence_flags(local_steps(tables, rc), 8);
}

proof fn lemma_chip_flags(
    tables: Map<Seq<char>, TableModel>,
    chip: ChipView,
    alpha: BBExt,
    beta: BBExt,
)
    ensures
        emits_flags(chip_outcome(tables, chip, alpha, beta).trace),
{
    let steps = permutation_steps(tables, chip, alpha, beta);
    assert forall|i: int| 0 <= i < steps.len() implies emits_flags((#[trigger] steps[i]).trace) by {
        lemma_emissions_flags(
            Section::Permutation,
            Some(i as u32),
            permutation_row(tables, chip, alpha, beta, i),
        );
    }
    lemma_sequence_flags(steps, steps.len());
}

proof fn lemma_permutation_flags(tables: Map<Seq<char>, TableModel>, chips: Seq<ChipView>)
    ensures
        emits_flags(permutation_outcome(tables, chips).trace),
{
    let names = trace_names(chips);
    let (alpha, beta) = challenges(
        tables["public_values"@].data[0],
        main_traces(tables, names),
    );
    let steps = chip_steps(tables, chips, alpha, beta);
    assert forall|i: int| 0 <= i < chips.len() implies emits_flags((#[trigger] steps[i]).trace) by {
        lemma_chip_flags(tables, chips[i], alpha, beta);
    }
    lemma_sequence_flags(steps, chips.len());
    let bound = binding_trace(tables["perm_challenges"@].data[0], alpha, beta);
    lemma_followed_flags(
        emits(bound),
        chips_outcome(tables, chips, alpha, beta),
    );
}

/// Every residual is 0 or 1, whatever the tables hold.
pub proof fn law_residuals_are_flags(tables: Map<Seq<char>, TableModel>)
    ensures
        all_flags(values_of(shrink_outcome(tables).trace)),
{
    let rc = crate::chips::poseidon2::round_constants_model();
    let chips = shrink_chips_model();
    lemma_local_flags(tables, rc);
    lemma_permutation_flags(tables, chips);
    lemma_followed_flags(local_outcome(tables, rc), permutation_outcome(tables, chips));
    let t = shrink_outcome(tables).trace;
    assert forall|i: int| 0 <= i < t.len() implies #[trigger] values_of(t)[i] <= 1 by {
        assert(t[i].value <= 1);
    }
}

/// What a walk does depends on the answers of the provider alone, and not on where the tables come
/// from: providers that give the same answers, also on the rows that cannot be read, lead to the same
/// residuals and the same end.
pub proof fn law_equal_answers_give_equal_walks<P: RowProvider, Q: RowProvider>(
    p0: P,
    p1: P,
    q0: Q,
    q1: Q,
    log0: LogView,
    log1: LogView,
    log2: LogView,
    r1: Result<(), WalkError>,
    r2: Result<(), WalkError>,
)
    requires
        agree(p0.tables(), q0.tables()),
        ran(p0, p1, log0, log1, r1, shrink_outcome(p0.tables())),
        ran(q0, q1, log0, log2, r2, shrink_outcome(q0.tables())),
    ensures
        log1 == log2,
        r1 is Ok <==> r2 is Ok,
        r1 is Err ==> r1->Err_0@ == r2->Err_0@,
{
    law_equal_answers_mean_equal_tables(p0, q0);
}

/// What is asked of two tags is the same, but for showing the target, and for the shape where no
/// target is derived.
pub open spec fn same_question(a: TagParamsView, b: TagParamsView) -> bool {
    &&& a.statement_hex == b.statement_hex
    &&& a.armer_id == b.armer_id
    &&& a.tag_seed_hex == b.tag_seed_hex
    &&& a.alpha_hex == b.alpha_hex
    &&& a.alpha_seed_hex == b.alpha_seed_hex
    &&& a.alpha_hex is None && a.alpha_seed_hex is Some ==> a.shape_id == b.shape_id
}

/// The tag depends on the answers of the provider alone: for providers that give the same answers and
/// parameters that ask the same, both computations give the same error, or both the same tag, number of
/// residuals, target and verdict.
pub proof fn law_equal_answers_give_equal_tags<P: RowProvider, Q: RowProvider>(
    p: P,
    q: Q,
    a: TagParamsView,
    b: TagParamsView,
    r1: Result<ShrinkTagResult, TagError>,
    r2: Result<ShrinkTagResult, TagError>,
)
    requires
        agree(p.tables(), q.tables()),
        same_question(a, b),
        is_answer(r1, tag_result(p.tables(), a)),
        is_answer(r2, tag_result(q.tables(), b)),
    ensures
        r1 is Ok <==> r2 is Ok,
        r1 is Ok ==> r1->Ok_0@ == r2->Ok_0@,
        r1 is Err ==> r1->Err_0@ == r2->Err_0@,
{
    law_equal_answers_mean_equal_tables(p, q);
    let sh = sha256(text_bytes(a.statement_hex)->Ok_0);
    assert(alpha_of(a, sh) == alpha_of(b, sh));
}

/// Two streams failed for the same reason.
pub open spec fn same_failure(a: StreamError, b: StreamError) -> bool {
    match (a, b) {
        (StreamError::NoSlots, StreamError::NoSlots) => true,
        (StreamError::Statement(x), StreamError::Statement(y)) => x == y,
        (StreamError::Walk(x), StreamError::Walk(y)) => x@ == y@,
        _ => false,
    }
}

/// The stream depends on the answers of the provider alone: for providers that give the same answers,
/// the same bytes are written, and both writers say the same of them.
pub proof fn law_equal_answers_give_equal_streams<P: RowProvider, Q: RowProvider>(
    p: P,
    q: Q,
    params: ShrinkResidualStreamParams<'_>,
    out0: Seq<u8>,
    out1: Seq<u8>,
    out2: Seq<u8>,
    r1: Result<ShrinkResidualStreamResult, StreamError>,
    r2: Result<ShrinkResidualStreamResult, StreamError>,
)
    requires
        agree(p.tables(), q.tables()),
        streamed(p.tables(), params, out0, out1, r1),
        streamed(q.tables(), params, out0, out2, r2),
    ensures
        out1 == out2,
        r1 is Ok <==> r2 is Ok,
        r1 is Ok ==> {
            &&& r1->Ok_0.slot_count == r2->Ok_0.slot_count
            &&& r1->Ok_0.block_count == r2->Ok_0.block_count
            &&& r1->Ok_0.residuals_emitted == r2->Ok_0.residuals_emitted
            &&& r1->Ok_0.statement_hash@ == r2->Ok_0.statement_hash@
            &&& r1->Ok_0.shape_id_hash@ == r2->Ok_0.shape_id_hash@
        },
        r1 is Err ==> same_failure(r1->Err_0, r2->Err_0),
{
    law_equal_answers_mean_equal_tables(p, q);
}

/// A stream of zeros has the tag zero.
pub proof fn law_zero_residuals_have_zero_tag(
    seed: Seq<u8>,
    sh: Seq<u8>,
    armer_id: u32,
    residuals: Seq<u32>,
)
    requires
        forall|i: int| 0 <= i < residuals.len() ==> #[trigger] residuals[i] == 0,
    ensures
        tag_of(seed, sh, armer_id, residuals) == seq![0u64, 0u64, 0u64, 0u64],
{
    assert forall|limb: int| 0 <= limb < 4 implies #[trigger] tag_limb(
        seed,
        sh,
        armer_id,
        residuals,
        limb,
        residuals.len(),
    ) == 0 by {
        lemma_zero_sum(seed, sh, armer_id, residuals, limb as u32, P64_CANDIDATES[limb], residuals.len());
        lemma_primes_positive();
        assert(0int % P64_CANDIDATES[limb] as int == 0);
    }
    assert(tag_of(seed, sh, armer_id, residuals) =~= seq![0u64, 0u64, 0u64, 0u64]);
}

proof fn lemma_zero_sum(
    seed: Seq<u8>,
    sh: Seq<u8>,
    armer_id: u32,
    residuals: Seq<u32>,
    limb: u32,
    p: u64,
    n: nat,
)
    requires
        n <= residuals.len(),
        forall|i: int| 0 <= i < residuals.len() ==> #[trigger] residuals[i] == 0,
    ensures
        weighted_sum(seed, sh, armer_id, residuals, limb, p, n) == 0,
    decreases n,
{
    if n > 0 {
        lemma_zero_sum(seed, sh, armer_id, residuals, limb, p, (n - 1) as nat);
        let c = coefficient(seed, sh, armer_id, (n - 1) as nat, limb, p);
        assert(residuals[n - 1] == 0);
        assert(c * 0 == 0);
    }
}

/// The tag is linear: the tag of a sum of two streams is the sum of their tags, limb by limb.
pub proof fn law_tag_is_linear(
    seed: Seq<u8>,
    sh: Seq<u8>,
    armer_id: u32,
    a: Seq<u32>,
    b: Seq<u32>,
    c: Seq<u32>,
    limb: int,
)
    requires
        0 <= limb < 4,
        a.len() == c.len(),
        b.len() == c.len(),
        forall|i: int| 0 <= i < c.len() ==> #[trigger] c[i] == a[i] + b[i],
    ensures
        tag_of(seed, sh, armer_id, c)[limb] == (tag_of(seed, sh, armer_id, a)[limb] + tag_of(
            seed,
            sh,
            armer_id,
            b,
        )[limb]) % (P64_CANDIDATES[limb] as int),
{
    let p = P64_CANDIDATES[limb];
    lemma_primes_positive();
    lemma_linear_sum(seed, sh, armer_id, a, b, c, limb as u32, p, c.len());
    let x = weighted_sum(seed, sh, armer_id, a, limb as u32, p, c.len());
    let y = weighted_sum(seed, sh, armer_id, b, limb as u32, p, c.len());
    lemma_add_mod_noop(x, y, p as int);
    lemma_mod_bound(x, p as int);
    lemma_mod_bound(y, p as int);
    lemma_mod_bound(x + y, p as int);
}

proof fn lemma_linear_sum(
    seed: Seq<u8>,
    sh: Seq<u8>,
    armer_id: u32,
    a: Seq<u32>,
    b: Seq<u32>,
    c: Seq<u32>,
    limb: u32,
    p: u64,
    n: nat,
)
    requires
        n <= c.len(),
        a.len() == c.len(),
        b.len() == c.len(),
        forall|i: int| 0 <= i < c.len() ==> #[trigger] c[i] == a[i] + b[i],
    ensures
        weighted_sum(seed, sh, armer_id, c, limb, p, n) == weighted_sum(
            seed,
            sh,
            armer_id,
            a,
            limb,
            p,
            n,
        ) + weighted_sum(seed, sh, armer_id, b, limb, p, n),
    decreases n,
{
    if n > 0 {
        lemma_linear_sum(seed, sh, armer_id, a, b, c, limb, p, (n - 1) as nat);
        let k = coefficient(seed, sh, armer_id, (n - 1) as nat, limb, p);
        let (x, y, z) = (a[n - 1] as int, b[n - 1] as int, c[n - 1] as int);
        assert(z == x + y);
        assert(k * z == k * x + k * y) by (nonlinear_arith)
            requires
                z == x + y,
        ;
    }
}

/// The residuals that a stream spells behind its header.
pub open spec fn spelled_residuals(stream: Seq<u8>) -> Seq<u32> {
    Seq::new(
        le_value(stream.subrange(20, 28)),
        |i: int|
            le_value(stream.subrange(HEADER_LEN + 4 * i, HEADER_LEN + 4 * i + 4)) as u32,
    )
}

/// The stream carries the residuals in the order in which the tag takes them: the tag of what the
/// stream spells is the tag of what was walked.
pub proof fn law_stream_keeps_tag(
    seed: Seq<u8>,
    sh: Seq<u8>,
    armer_id: u32,
    tables: Map<Seq<char>, TableModel>,
    slot_count: u32,
    statement_hash: Seq<u8>,
    shape_id_hash: Seq<u8>,
)
    requires
        slot_count > 0,
        shrink_outcome(tables).trace.len() <= u64::MAX,
        statement_hash.len() == 32,
        shape_id_hash.len() == 32,
    ensures
        ({
            let residuals = values_of(shrink_outcome(tables).trace);
            let stream = stream_bytes(residuals, slot_count, statement_hash, shape_id_hash);
            &&& spelled_residuals(stream) == residuals
            &&& tag_of(seed, sh, armer_id, spelled_residuals(stream)) == tag_of(
                seed,
                sh,
                armer_id,
                residuals,
            )
        }),
{
    let residuals = values_of(shrink_outcome(tables).trace);
    let stream = stream_bytes(residuals, slot_count, statement_hash, shape_id_hash);
    law_stream_can_be_read(residuals, slot_count, statement_hash, shape_id_hash);
    assert forall|i: int| 0 <= i < residuals.len() implies spelled_residuals(stream)[i]
        == residuals[i] by {
        assert(le_value(stream.subrange(HEADER_LEN + 4 * i, HEADER_LEN + 4 * i + 4))
            == residuals[i]);
    }
    assert(spelled_residuals(stream) =~= residuals);
}

/// What a log remembers is the first residual that is not zero: all residuals before it are zero,
/// and where it remembers none, all of them are.
pub proof fn law_first_nonzero_is_first(trace: Seq<Emission>, base: nat)
    ensures
        match first_nonzero(trace, base) {
            Some((index, e)) => {
                let i = index - base;
                &&& 0 <= i < trace.len()
                &&& trace[i] == e
                &&& e.value != 0
                &&& forall|k: int| 0 <= k < i ==> (#[trigger] trace[k]).value == 0
            },
            None => forall|k: int| 0 <= k < trace.len() ==> (#[trigger] trace[k]).value == 0,
        },
    decreases trace.len(),
{
    if trace.len() > 0 {
        let t = trace.drop_last();
        law_first_nonzero_is_first(t, base);
        assert forall|k: int| 0 <= k < t.len() implies t[k] == #[trigger] trace[k] by {}
    }
}

/// The first rows of a table, cut out of its values, are the first values.
proof fn lemma_rows_of_values(values: Seq<u32>, cols: nat, rows: nat, n: nat)
    requires
        n <= rows,
        values.len() == rows * cols,
    ensures
        rows_concat(
            Seq::new(rows, |r: int| values.subrange(r * cols as int, (r + 1) * cols as int)),
            n,
        ) == values.take((n * cols) as int),
    decreases n,
{
    let data = Seq::new(rows, |r: int| values.subrange(r * cols as int, (r + 1) * cols as int));
    if n == 0 {
        assert(n * cols == 0) by (nonlinear_arith)
            requires
                n == 0,
        ;
        assert(values.take(0) =~= Seq::<u32>::empty());
    } else {
        let m = (n - 1) as nat;
        lemma_rows_of_values(values, cols, rows, m);
        assert(0 <= m * cols && m * cols + cols == n * cols && n * cols <= rows * cols)
            by (nonlinear_arith)
            requires
                n == m + 1,
                n <= rows,
        ;
        assert(data[m as int] == values.subrange((m * cols) as int, (n * cols) as int));
        assert(values.take((m * cols) as int) + values.subrange(
            (m * cols) as int,
            (n * cols) as int,
        ) =~= values.take((n * cols) as int));
    }
}

/// A trace that was written as a table is read back as the same trace.
proof fn lemma_trace_survives(name: Seq<char>, m: MatrixView)
    requires
        committable(m),
        m.width <= u32::MAX,
    ensures
        trace_of(written_model(trace_table(name, m))) == m,
{
    let t = trace_table(name, m);
    assert(m.height() <= u32::MAX) by {
        let k = choose|k: nat| k <= MAX_LOG_HEIGHT && m.height() == #[trigger] pow2(k);
        vstd::arithmetic::power2::lemma2_to64();
        if k < 25 {
            vstd::arithmetic::power2::lemma_pow2_strictly_increases(k, 25);
        }
    }
    assert(m.width * m.height() == m.height() * m.width) by (nonlinear_arith);
    lemma_rows_of_values(m.values, m.width, m.height(), m.height());
    assert(written_model(t).data =~= Seq::new(
        m.height(),
        |r: int| m.values.subrange(r * m.width as int, (r + 1) * m.width as int),
    ));
    assert(m.values.take((m.height() * m.width) as int) =~= m.values);
}

/// The names of all tables differ.
pub open spec fn names_differ(tables: Seq<MetaView>) -> bool {
    forall|i: int, j: int|
        0 <= i < j < tables.len() ==> (#[trigger] tables[i]).name != (#[trigger] tables[j]).name
}

/// Finding none among the first traces says that each can be committed to.
pub proof fn lemma_no_bad_trace(traces: Seq<MatrixView>, n: nat)
    requires
        n <= traces.len(),
        first_bad_trace(traces, n) is None,
    ensures
        forall|i: int| 0 <= i < n ==> committable(#[trigger] traces[i]),
        first_uncommittable(traces, n) is None,
    decreases n,
{
    if n > 0 {
        lemma_no_bad_trace(traces, (n - 1) as nat);
    }
}

proof fn lemma_all_present(tables: Map<Seq<char>, TableModel>, names: Seq<Seq<char>>, n: nat)
    requires
        n <= names.len(),
        forall|i: int|
            0 <= i < names.len() ==> gathering_error(tables, #[trigger] names[i]) is None,
    ensures
        first_gathering_error(tables, names, n) is None,
    decreases n,
{
    if n > 0 {
        lemma_all_present(tables, names, (n - 1) as nat);
    }
}

/// What is exported is bound to its transcript. Let tables be exported for the traces of all chips,
/// written as a container and served from it. Then the walk draws the challenges that were exported,
/// and the two residuals that compare them are zero.
pub proof fn law_export_is_bound(
    public_values: Seq<u32>,
    main: Seq<TraceView>,
    pre: Seq<TraceView>,
    list: Seq<MetaView>,
)
    requires
        exported(public_values, main, pre) == Ok::<Seq<MetaView>, ExportErrorView>(list),
        names_differ(list),
        write_tables(list).1 is None,
        forall|i: int| 0 <= i < main.len() ==> (#[trigger] main[i]).trace.width <= u32::MAX,
        order_of(Seq::empty(), main).map_values(|x: (Seq<char>, nat)| x.0) == trace_names(
            shrink_chips_model(),
        ),
    ensures
        ({
            let tables = container_tables(write_tables(list).0, infos_of(list));
            let names = trace_names(shrink_chips_model());
            let (alpha, beta) = challenges(
                tables["public_values"@].data[0],
                main_traces(tables, names),
            );
            &&& transcript_error(tables, names) is None
            &&& challenges_error(tables) is None
            &&& tables["perm_challenges"@].data[0] == challenge_row(alpha, beta)
            &&& values_of(binding_trace(tables["perm_challenges"@].data[0], alpha, beta))
                == seq![0u32, 0u32]
        }),
{
    broadcast use vstd::seq_lib::group_to_multiset_ensures;

    let tables = container_tables(write_tables(list).0, infos_of(list));
    let names = trace_names(shrink_chips_model());
    let order = order_of(Seq::empty(), main);
    let traces = in_order(order, main);
    let (alpha, beta) = challenges(public_values, traces);
    let pv_row = public_values.take(NUM_PUBLIC_VALUES as int);
    let pre_tables = tables_in_order(order_of("pre/"@, pre), pre);
    let main_tables = tables_in_order(order, main);
    let perms = all_permutation_tables(
        shrink_chips_model(),
        order,
        main,
        pre,
        alpha,
        beta,
        order.len(),
    )->Ok_0;
    let head = seq![
        row_table("public_values"@, pv_row),
        row_table("perm_challenges"@, challenge_row(alpha, beta)),
    ];
    assert(list == head + pre_tables + main_tables + perms);
    assert(list[0] == head[0]);
    assert(list[1] == head[1]);
    law_written_tables_are_served(list, 0);
    law_written_tables_are_served(list, 1);
    assert(written_model(list[0]).data[0] =~= pv_row);
    assert(written_model(list[1]).data[0] =~= challenge_row(alpha, beta));
    lemma_no_bad_trace(traces, traces.len());
    let placed = Seq::new(main.len(), |i: int| (Seq::<char>::empty() + main[i].name, i as nat));
    lemma_sorted_by_name(placed);
    let at = 2 + pre_tables.len();
    assert forall|k: int| 0 <= k < names.len() implies gathering_error(
        tables,
        #[trigger] names[k],
    ) is None && trace_of(tables[names[k]]) == traces[k] by {
        assert(names[k] == order[k].0);
        assert(list[at + k] == main_tables[k]);
        law_written_tables_are_served(list, at + k);
        assert(order.contains(order[k]));
        assert(placed.to_multiset().count(order[k]) > 0);
        assert(placed.contains(order[k]));
        let m = main[order[k].1 as int].trace;
        assert(traces[k] == m);
        assert(committable(m));
        lemma_trace_survives(order[k].0, m);
    }
    assert(main_traces(tables, names) =~= traces);
    lemma_all_present(tables, names, names.len());
    assert(pv_row.take(NUM_PUBLIC_VALUES as int) =~= pv_row);
    assert(e_block(challenge_row(alpha, beta), 0) == alpha);
    assert(e_block(challenge_row(alpha, beta), 4) == beta);
    assert(values_of(binding_trace(challenge_row(alpha, beta), alpha, beta)) =~= seq![0u32, 0u32]);
}

} // verus!
