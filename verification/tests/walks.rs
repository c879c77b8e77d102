use p3_air::BaseAir;
use p3_baby_bear::BabyBear;
use p3_challenger::{CanObserve, FieldChallenger};
use p3_commit::Pcs;
use p3_field::extension::BinomialExtensionField;
use p3_field::{AbstractExtensionField, AbstractField, PrimeField32};
use p3_matrix::dense::RowMajorMatrix;
use shrink_oracle::chips::poseidon2::round_constants;
use shrink_oracle::export::{
    export_shrink_tables, export_with_challenges, write_exported, ExportError, ExportedTable,
    NamedTrace,
};
use shrink_oracle::extension::{ext_from_block_u32, BBExt};
use shrink_oracle::hexadecimal::HexError;
use shrink_oracle::machine::{shrink_chips, ChipInfo, NUM_SHRINK_CHIPS};
use shrink_oracle::matrix::RowMatrix;
use shrink_oracle::memory::InMemoryRowProvider;
use shrink_oracle::permutation::walk_chip;
use shrink_oracle::pvor::reader::PvorReader;
use shrink_oracle::residuals::{ResidualLog, Section};
use shrink_oracle::rows::{RowError, RowProvider};
use shrink_oracle::stream::{
    try_write_shrink_residual_stream, write_shrink_residual_stream, ShrinkResidualStreamParams,
    StreamError,
};
use shrink_oracle::tag::{
    compute_shrink_tag, residual_tag, try_compute_shrink_tag, KeyError, ShrinkTagParams, TagError,
};
use shrink_oracle::transcript::{derive_challenges, is_committable_height, NUM_PUBLIC_VALUES};
use shrink_oracle::walk::{
    are_tables_canonical, try_walk_shrink_residuals, walk_memory, walk_shrink_residuals,
};
use shrink_oracle::walk_error::WalkError;
use sp1_core_machine::operations::poseidon2::trace::populate_perm;
use sp1_recursion_core::machine::RecursionAir;
use sp1_stark::air::MachineAir;
use sp1_stark::baby_bear_poseidon2::BabyBearPoseidon2;
use sp1_stark::{InnerChallenge, InnerChallenger, InnerPcs, StarkGenericConfig};

type Ext = BinomialExtensionField<BabyBear, 4>;

/// A small deterministic generator of field elements.
struct Numbers(u64);

impl Numbers {
    fn next(&mut self) -> u32 {
        self.0 = self.0.wrapping_mul(6364136223846793005).wrapping_add(1442695040888963407);
        ((self.0 >> 33) % 2013265921) as u32
    }
}

fn ext(e: BBExt) -> Ext {
    Ext::from_base_slice(&[e.c0, e.c1, e.c2, e.c3].map(BabyBear::from_canonical_u32))
}

fn limbs(e: Ext) -> [u32; 4] {
    let s: &[BabyBear] = e.as_base_slice();
    [s[0], s[1], s[2], s[3]].map(|x| x.as_canonical_u32())
}

fn height_of(name: &str) -> usize {
    match name {
        "PublicValues" => 16,
        "MemoryConst" => 1,
        _ => 4,
    }
}

fn poseidon_row(numbers: &mut Numbers) -> Vec<u32> {
    let input: [BabyBear; 16] =
        std::array::from_fn(|_| BabyBear::from_canonical_u32(numbers.next()));
    let mut row = vec![BabyBear::zero(); 313];
    populate_perm::<BabyBear, 3>(input, None, &mut row);
    row.into_iter().map(|x| x.as_canonical_u32()).collect()
}

/// Traces that satisfy every local constraint: chips with local constraints idle, Poseidon2 rows are
/// permutations, and the memory chips hold arbitrary values.
fn traces() -> (Vec<NamedTrace>, Vec<NamedTrace>) {
    let machine = RecursionAir::<BabyBear, 3>::shrink_machine(BabyBearPoseidon2::compressed());
    let mut numbers = Numbers(1);
    let mut main: Vec<NamedTrace> = Vec::new();
    let mut pre: Vec<NamedTrace> = Vec::new();
    for chip in machine.chips() {
        let name = chip.name();
        let h = height_of(&name);
        let memory = name.starts_with("Memory");
        let mut fill = |width: usize| -> Vec<u32> {
            (0..width * h).map(|_| if memory { numbers.next() } else { 0 }).collect()
        };
        let mut values = fill(chip.width());
        let pre_values = fill(chip.preprocessed_width());
        if name == "Poseidon2WideDeg3" {
            values = (0..h).flat_map(|_| poseidon_row(&mut numbers)).collect();
        }
        main.push(NamedTrace {
            name: name.clone(),
            trace: RowMatrix { values, width: chip.width() },
        });
        pre.push(NamedTrace {
            name,
            trace: RowMatrix { values: pre_values, width: chip.preprocessed_width() },
        });
    }
    (main, pre)
}

fn public_values() -> Vec<u32> {
    let mut numbers = Numbers(99);
    (0..NUM_PUBLIC_VALUES + 3).map(|_| numbers.next()).collect()
}

fn tables() -> Vec<ExportedTable> {
    let (main, pre) = traces();
    export_shrink_tables(&public_values(), &main, &pre).unwrap()
}

fn container(tables: &[ExportedTable]) -> Vec<u8> {
    let mut out: Vec<u8> = Vec::new();
    write_exported(&mut out, tables).unwrap();
    out
}

fn walk(tables: &[ExportedTable]) -> (Result<(), WalkError>, ResidualLog) {
    let mut reader = PvorReader::open(container(tables)).unwrap();
    let mut log = ResidualLog::new();
    let r = walk_shrink_residuals(&mut reader, &mut log);
    (r, log)
}

fn table<'a>(tables: &'a mut Vec<ExportedTable>, name: &str) -> &'a mut ExportedTable {
    tables.iter_mut().find(|t| t.name == name).unwrap()
}

fn without(name: &str) -> Vec<ExportedTable> {
    tables().into_iter().filter(|t| t.name != name).collect()
}

fn resized(name: &str, rows: u32, cols: u32) -> Vec<ExportedTable> {
    let mut all = tables();
    let t = table(&mut all, name);
    t.rows = rows;
    t.cols = cols;
    t.values = vec![0; (rows * cols) as usize];
    all
}

#[test]
fn the_transcript_length_is_that_of_the_machine() {
    assert_eq!(NUM_PUBLIC_VALUES, sp1_stark::PROOF_MAX_NUM_PVS);
    let machine = RecursionAir::<BabyBear, 3>::shrink_machine(BabyBearPoseidon2::compressed());
    assert_eq!(machine.num_pv_elts(), NUM_PUBLIC_VALUES);
    assert_eq!(machine.chips().len(), NUM_SHRINK_CHIPS);
}

#[test]
fn chips_are_those_of_the_machine() {
    let machine = RecursionAir::<BabyBear, 3>::shrink_machine(BabyBearPoseidon2::compressed());
    let chips = shrink_chips();
    let names: Vec<&str> = chips.iter().map(|c| c.name.as_str()).collect();
    assert_eq!(
        names,
        vec![
            "MemoryConst",
            "MemoryVar",
            "BaseAlu",
            "ExtAlu",
            "Poseidon2WideDeg3",
            "BatchFRI",
            "Select",
            "ExpReverseBitsLen",
            "PublicValues"
        ]
    );
    for (chip, got) in machine.chips().iter().zip(chips.iter()) {
        assert_eq!(got.permutation_width, chip.permutation_width());
        assert_eq!(got.batch_size, chip.logup_batch_size());
        assert_eq!(got.num_interactions, chip.num_interactions());
        assert!(got.commits_locally);
        // All interactions of these chips are local, the sends before the receives.
        let all: Vec<_> = chip.sends().iter().chain(chip.receives().iter()).collect();
        assert_eq!(got.interactions.len(), all.len());
        for (i, x) in got.interactions.iter().enumerate() {
            assert_eq!(x.is_send, i < chip.sends().len());
            assert_eq!(x.argument_index, all[i].argument_index());
            assert_eq!(x.values.len(), all[i].values.len());
            for (a, b) in x.values.iter().zip(all[i].values.iter()) {
                assert_eq!(a.constant, b.constant.as_canonical_u32());
                assert_eq!(a.weights.len(), b.column_weights.len());
            }
            assert_eq!(
                x.multiplicity.weights.len(),
                all[i].multiplicity.column_weights.len()
            );
        }
    }
}

#[test]
fn round_constants_are_those_of_the_permutation() {
    let rc = round_constants();
    assert_eq!(rc.len(), 21);
    for (r, row) in rc.iter().enumerate() {
        assert_eq!(row.as_slice(), &sp1_primitives::RC_16_30_U32[r][..]);
    }
}

#[test]
fn challenges_are_drawn_from_the_transcript() {
    let a = RowMatrix { values: (1..9).collect(), width: 2 };
    let b = RowMatrix { values: vec![5, 6, 7], width: 3 };
    let pv = public_values();
    let config = BabyBearPoseidon2::compressed();
    let pcs: &InnerPcs = config.pcs();
    let evaluations = [&a, &b]
        .iter()
        .map(|m| {
            let domain = <InnerPcs as Pcs<InnerChallenge, InnerChallenger>>::natural_domain_for_degree(
                pcs,
                m.height(),
            );
            let values = m.values.iter().copied().map(BabyBear::from_canonical_u32).collect();
            (domain, RowMajorMatrix::new(values, m.width))
        })
        .collect();
    let (root, _) =
        <InnerPcs as Pcs<InnerChallenge, InnerChallenger>>::commit(pcs, evaluations);
    let mut challenger = config.challenger();
    let observed: Vec<BabyBear> =
        pv[..231].iter().copied().map(BabyBear::from_canonical_u32).collect();
    challenger.observe_slice(&observed);
    challenger.observe(root);
    let alpha: InnerChallenge = challenger.sample_ext_element();
    let beta: InnerChallenge = challenger.sample_ext_element();
    let (got_alpha, got_beta) = derive_challenges(&pv, &[a, b]);
    assert_eq!(ext(got_alpha), alpha);
    assert_eq!(ext(got_beta), beta);
    assert_ne!(alpha, beta);
}

#[test]
fn heights_are_powers_of_two_within_reach() {
    for n in [1usize, 2, 4, 1 << 25] {
        assert!(is_committable_height(n));
    }
    for n in [0usize, 3, 6, 1 << 26, (1 << 25) + 1] {
        assert!(!is_committable_height(n));
    }
}

#[test]
fn sound_traces_leave_no_residual() {
    let (r, log) = walk(&tables());
    assert!(r.is_ok());
    // Rows times residuals: Select, PublicValues, BaseAlu, ExtAlu, BatchFRI, ExpReverseBitsLen,
    // Poseidon2WideDeg3, and the permutation argument.
    let local = 4 * 3 + 4 * 2 + 16 * 2 + 4 * 12 + 4 * 12 + 4 * 4 + 4 * 8 + 4 * 297;
    let permutation = 2 + 2 + 4 * (2 + 7 + 7 + 17 + 3 + 4 + 3) + 16 * 2;
    assert_eq!(log.residuals.len(), local + permutation);
    assert!(log.residuals.iter().all(|r| *r == 0));
    assert!(log.first_nonzero.is_none());
}

#[test]
fn a_container_and_memory_give_the_same_residuals() {
    let mut all = tables();
    table(&mut all, "Select").values[1] = 5;
    let matrices: Vec<(String, RowMatrix)> = all
        .iter()
        .map(|t| {
            let m = RowMatrix { values: t.values.clone(), width: t.cols as usize };
            (t.name.clone(), m)
        })
        .collect();
    let refs: Vec<(&str, &RowMatrix)> = matrices.iter().map(|(n, m)| (n.as_str(), m)).collect();
    let mut p = InMemoryRowProvider::new(&refs, &[]);
    let mut log = ResidualLog::new();
    assert!(walk_shrink_residuals(&mut p, &mut log).is_ok());
    let (r, other) = walk(&all);
    assert!(r.is_ok());
    assert_eq!(log.residuals, other.residuals);
    assert_eq!(log.first_nonzero, other.first_nonzero);
    assert!(log.residuals.iter().all(|r| *r <= 1));
}

#[test]
fn changed_values_are_found_where_they_are() {
    // The table, the place of the value, a new value, and the first residual that it breaks.
    let cases: [(&str, usize, u32, Section, Option<u32>, usize); 9] = [
        ("Select", 5, 2, Section::Select, Some(1), 3),
        ("pre/Select", 8 * 2 + 3, 1, Section::Select, Some(2), 12 + 5),
        ("PublicValues", 3, 1, Section::PublicValues, Some(3), 20 + 7),
        ("BaseAlu", 12 + 3 * 2, 1, Section::BaseAlu, Some(1), 52 + 12 + 8),
        ("pre/ExtAlu", 32 + 8 + 3, 2, Section::ExtAlu, Some(1), 100 + 12 + 3),
        ("BatchFRI", 13 * 2, 1, Section::BatchFri, Some(1), 148 + 7),
        ("pre/ExpReverseBitsLen", 10 * 3 + 9, 1, Section::ExpReverseBitsLen, Some(3), 164 + 25),
        ("Poseidon2WideDeg3", 313 + 172, 1, Section::Poseidon2WideDeg3, Some(1), 196 + 297),
        ("perm/Select", 16 + 5, 1, Section::Permutation, Some(1), 0),
    ];
    for (name, at, value, section, row, index) in cases {
        let mut all = tables();
        table(&mut all, name).values[at] = value;
        let (r, log) = walk(&all);
        assert!(r.is_ok(), "{}", name);
        // A changed main trace also changes the transcript; the local constraints come first.
        let first = log.first_nonzero.unwrap();
        assert_eq!(first.emission.section, section, "{}", name);
        assert_eq!(first.emission.row, row, "{}", name);
        assert_eq!(first.emission.value, 1);
        assert_eq!(log.residuals[first.index], 1);
        if index > 0 {
            assert_eq!(first.index, index, "{}", name);
        }
    }
}

#[test]
fn foreign_challenges_are_found() {
    let mut all = tables();
    let t = table(&mut all, "perm_challenges");
    assert_eq!((t.rows, t.cols), (1, 8));
    t.values[5] = (t.values[5] + 1) % 2013265921;
    let (r, log) = walk(&all);
    assert!(r.is_ok());
    let first = log.first_nonzero.unwrap();
    assert_eq!((first.emission.section, first.emission.row), (Section::Permutation, None));
    assert_eq!(first.index, 1384 + 1);
    assert_eq!(log.residuals.iter().filter(|r| **r == 1).count(), 1);
}

#[test]
fn extension_operations_are_checked() {
    let mut numbers = Numbers(5);
    let mut value = || ext_from_block_u32(std::array::from_fn(|_| numbers.next()));
    let a = value();
    let b = value();
    let results = [ext(a) + ext(b), ext(a) - ext(b), ext(a) * ext(b), ext(a) / ext(b)];
    for (op, out) in results.iter().enumerate() {
        let mut all = tables();
        let main = table(&mut all, "ExtAlu");
        for (k, v) in limbs(*out)
            .into_iter()
            .chain(limbs(ext(a)))
            .chain(limbs(ext(b)))
            .enumerate()
        {
            main.values[12 + k] = v;
        }
        table(&mut all, "pre/ExtAlu").values[8 + 3 + op] = 1;
        let (r, log) = walk(&all);
        assert!(r.is_ok());
        // Lane 1 of row 0 holds; then one limb is off.
        assert_eq!(&log.residuals[100..112], &[0; 12], "{}", op);
        let main = table(&mut all, "ExtAlu");
        main.values[12 + 3] = (main.values[12 + 3] + 1) % 2013265921;
        let (r, log) = walk(&all);
        assert!(r.is_ok());
        assert_eq!(&log.residuals[100..112], &[0, 0, 0, 0, 1, 0, 0, 0, 0, 0, 0, 0], "{}", op);
    }
}

#[test]
fn selections_and_base_operations_are_checked() {
    let mut all = tables();
    // bit, out1, out2, in1, in2
    table(&mut all, "Select").values[..10].copy_from_slice(&[1, 8, 7, 7, 8, 0, 7, 8, 7, 8]);
    table(&mut all, "pre/Select").values[..8].copy_from_slice(&[1, 5, 6, 7, 8, 9, 10, 11]);
    // out, in1, in2 in four lanes: 3 + 4, 3 - 4, 3 * 4, 3 / 4
    let quotient = {
        let x = BabyBear::from_canonical_u32(3) / BabyBear::from_canonical_u32(4);
        x.as_canonical_u32()
    };
    table(&mut all, "BaseAlu").values[..12]
        .copy_from_slice(&[7, 3, 4, 2013265920, 3, 4, 12, 3, 4, quotient, 3, 4]);
    for lane in 0..4 {
        table(&mut all, "pre/BaseAlu").values[8 * lane + 3 + lane] = 1;
    }
    let (r, log) = walk(&all);
    assert!(r.is_ok());
    assert!(log.residuals[..100].iter().all(|r| *r == 0));
    table(&mut all, "BaseAlu").values[9] = 1;
    let (_, log) = walk(&all);
    assert_eq!(&log.residuals[52..64], &[0, 0, 0, 0, 0, 0, 0, 0, 0, 0, 1, 0]);
}

#[test]
fn missing_tables_are_named() {
    for name in [
        "Select",
        "pre/Select",
        "PublicValues",
        "pre/PublicValues",
        "BaseAlu",
        "pre/BaseAlu",
        "ExtAlu",
        "pre/ExtAlu",
        "BatchFRI",
        "pre/BatchFRI",
        "MemoryVar",
        "pre/MemoryVar",
        "MemoryConst",
        "pre/MemoryConst",
        "ExpReverseBitsLen",
        "pre/ExpReverseBitsLen",
        "Poseidon2WideDeg3",
        "pre/Poseidon2WideDeg3",
        "public_values",
        "perm_challenges",
        "perm/MemoryConst",
        "perm_meta/Select",
    ] {
        let (r, _) = walk(&without(name));
        match r {
            Err(WalkError::MissingTable(t)) => assert_eq!(t, name),
            _ => panic!("{}", name),
        }
    }
}

#[test]
fn an_error_keeps_what_was_emitted() {
    let (r, log) = walk(&without("BatchFRI"));
    assert!(r.is_err());
    assert_eq!(log.residuals.len(), 20 + 32 + 48 + 48);
}

#[test]
fn the_memory_tables_are_looked_for_in_order() {
    let m = RowMatrix { values: vec![0], width: 1 };
    let refs = [("MemoryVar", &m), ("pre/MemoryVar", &m)];
    let mut p = InMemoryRowProvider::new(&refs, &[]);
    let mut log = ResidualLog::new();
    let r = walk_memory(&mut p, &mut log);
    assert!(matches!(r, Err(WalkError::MissingTable(t)) if t == "pre/MemoryConst"));
    assert!(log.residuals.is_empty());
}

#[test]
fn wrong_dimensions_are_refused() {
    let (r, _) = walk(&resized("Select", 4, 6));
    assert!(matches!(
        r,
        Err(WalkError::ColumnCount { table, expected: 5, got: 6 }) if table == "Select"
    ));
    let (r, _) = walk(&resized("pre/Select", 2, 8));
    assert!(matches!(
        r,
        Err(WalkError::RowMismatch { table, rows: 4, other, other_rows: 2 })
            if table == "Select" && other == "pre/Select"
    ));
    let (r, _) = walk(&resized("pre/ExtAlu", 4, 9));
    assert!(matches!(
        r,
        Err(WalkError::ColumnGranularity { table, factor: 8, got: 9 }) if table == "pre/ExtAlu"
    ));
    let (r, _) = walk(&resized("public_values", 2, 231));
    assert!(matches!(
        r,
        Err(WalkError::RowCount { table, expected: 1, got: 2 }) if table == "public_values"
    ));
    let (r, _) = walk(&resized("public_values", 1, 230));
    assert!(matches!(
        r,
        Err(WalkError::ColumnCount { table, expected: 231, got: 230 }) if table == "public_values"
    ));
    let (r, _) = walk(&resized("perm_challenges", 1, 9));
    assert!(matches!(
        r,
        Err(WalkError::ColumnCount { table, expected: 8, got: 9 }) if table == "perm_challenges"
    ));
    let (r, _) = walk(&resized("MemoryVar", 3, 8));
    assert!(matches!(r, Err(WalkError::TraceHeight(t)) if t == "MemoryVar"));
    let (r, _) = walk(&resized("perm/MemoryVar", 4, 9));
    assert!(matches!(
        r,
        Err(WalkError::ColumnGranularity { table, factor: 4, got: 9 }) if table == "perm/MemoryVar"
    ));
    let (r, _) = walk(&resized("perm/MemoryVar", 4, 12));
    assert!(matches!(
        r,
        Err(WalkError::PermutationWidth { table, expected: 2, got: 3 }) if table == "perm/MemoryVar"
    ));
    let (r, _) = walk(&resized("perm/MemoryVar", 8, 8));
    assert!(matches!(
        r,
        Err(WalkError::RowMismatch { table, rows: 8, other, other_rows: 4 })
            if table == "perm/MemoryVar" && other == "MemoryVar"
    ));
    let (r, _) = walk(&resized("pre/MemoryVar", 8, 4));
    assert!(matches!(
        r,
        Err(WalkError::RowMismatch { table, rows: 8, other, other_rows: 4 })
            if table == "pre/MemoryVar" && other == "MemoryVar"
    ));
    let (r, _) = walk(&resized("perm_meta/MemoryVar", 1, 3));
    assert!(matches!(r, Err(WalkError::ColumnCount { table, .. }) if table == "perm_meta/MemoryVar"));
    let (r, _) = walk(&resized("perm_meta/MemoryVar", 2, 2));
    assert!(matches!(r, Err(WalkError::RowCount { table, .. }) if table == "perm_meta/MemoryVar"));
    let (r, _) = walk(&resized("perm_meta/MemoryVar", 1, 2));
    assert!(matches!(
        r,
        Err(WalkError::BatchSize { table, expected: 2, got: 0 }) if table == "perm_meta/MemoryVar"
    ));
    let (r, _) = walk(&resized("pre/MemoryVar", 4, 1));
    assert!(matches!(r, Err(WalkError::ChipColumns(t)) if t == "MemoryVar"));
}

#[test]
fn parameters_are_compared() {
    let mut all = tables();
    assert_eq!(table(&mut all, "perm_meta/Select").values, vec![2, 5]);
    // The number of interactions is not looked at, and need not be a field element.
    table(&mut all, "perm_meta/Select").values = vec![2, u32::MAX];
    let (r, log) = walk(&all);
    assert!(r.is_ok());
    assert!(log.first_nonzero.is_none());
    table(&mut all, "perm_meta/Select").values = vec![u32::MAX, 5];
    let (r, _) = walk(&all);
    assert!(matches!(r, Err(WalkError::BatchSize { expected: 2, got: 4294967295, .. })));
}

fn lone_chip(commits_locally: bool, permutation_width: usize) -> ChipInfo {
    ChipInfo {
        name: "Lone".to_string(),
        permutation_width,
        batch_size: 2,
        commits_locally,
        num_interactions: 0,
        interactions: Vec::new(),
    }
}

#[test]
fn chips_out_of_reach_are_refused() {
    let one = BBExt { c0: 1, c1: 0, c2: 0, c3: 0 };
    let main = RowMatrix { values: vec![0, 0], width: 1 };
    let perm = RowMatrix { values: vec![0; 16], width: 8 };
    let meta = RowMatrix { values: vec![2, 0], width: 2 };
    let refs = [("Lone", &main), ("perm/Lone", &perm), ("perm_meta/Lone", &meta)];
    let mut p = InMemoryRowProvider::new(&refs, &[]);
    let mut log = ResidualLog::new();
    let r = walk_chip(&mut p, &mut log, &lone_chip(false, 2), one, one);
    assert!(matches!(r, Err(WalkError::GlobalScope(t)) if t == "Lone"));
    let r = walk_chip(&mut p, &mut log, &lone_chip(true, 2), one, one);
    assert!(matches!(r, Err(WalkError::EntryCount { expected: 0, got: 1, .. })));
    let r = walk_chip(&mut p, &mut log, &lone_chip(true, 0), one, one);
    assert!(r.is_ok());
    assert!(log.residuals.is_empty());
    let mut empty = InMemoryRowProvider::new(&[], &[]);
    let r = walk_chip(&mut empty, &mut log, &lone_chip(false, 2), one, one);
    assert!(r.is_ok());
}

#[test]
fn the_running_sum_is_checked() {
    let one = BBExt { c0: 1, c1: 0, c2: 0, c3: 0 };
    let main = RowMatrix { values: vec![0, 0], width: 1 };
    let perm = RowMatrix { values: vec![0, 0, 0, 0, 0, 0, 0, 1], width: 4 };
    let meta = RowMatrix { values: vec![2, 0], width: 2 };
    let refs = [("Lone", &main), ("perm/Lone", &perm), ("perm_meta/Lone", &meta)];
    let mut p = InMemoryRowProvider::new(&refs, &[]);
    let mut log = ResidualLog::new();
    let r = walk_chip(&mut p, &mut log, &lone_chip(true, 1), one, one);
    assert!(r.is_ok());
    assert_eq!(log.residuals, vec![0, 1]);
}

#[test]
fn unreadable_rows_interrupt_the_walk() {
    let mut bytes = container(&tables());
    bytes.truncate(bytes.len() - 4);
    let mut reader = PvorReader::open(bytes).unwrap();
    let mut log = ResidualLog::new();
    let r = walk_shrink_residuals(&mut reader, &mut log);
    assert!(matches!(r, Err(WalkError::Read(RowError::Unreadable(_)))));
    assert!(log.residuals.iter().all(|r| *r == 0));
}

/// The container of the tables with one of them moved to the end and cut by its last value.
fn cut_short(name: &str) -> Vec<u8> {
    let mut all = tables();
    let at = all.iter().position(|t| t.name == name).unwrap();
    let last = all.remove(at);
    all.push(last);
    let mut bytes = container(&all);
    bytes.truncate(bytes.len() - 4);
    bytes
}

/// How many residuals the given chips emit, at a number for each row.
fn emitted_by(chips: &[(&str, usize)]) -> usize {
    let mut all = tables();
    chips.iter().map(|(name, n)| table(&mut all, name).rows as usize * n).sum()
}

#[test]
fn a_row_is_checked_before_its_successor_is_read() {
    let mut all = tables();
    let fri = table(&mut all, "BatchFRI").rows as usize;
    let exp = table(&mut all, "ExpReverseBitsLen").rows as usize;
    assert!(fri >= 2 && exp >= 2);
    let lanes = table(&mut all, "pre/ExtAlu").cols as usize / 8;
    let before_fri =
        emitted_by(&[("Select", 5), ("PublicValues", 2), ("BaseAlu", 12), ("ExtAlu", 3 * lanes)]);
    let before_exp = before_fri + emitted_by(&[("BatchFRI", 4)]);
    for (name, expected) in [
        ("BatchFRI", before_fri + 4 * (fri - 2) + 3),
        // Only the last row itself looks at its preprocessed row.
        ("pre/BatchFRI", before_fri + 4 * (fri - 1)),
        ("ExpReverseBitsLen", before_exp + 8 * (exp - 2) + 6),
        ("pre/ExpReverseBitsLen", before_exp + 8 * (exp - 2) + 6),
    ] {
        let mut reader = PvorReader::open(cut_short(name)).unwrap();
        let mut log = ResidualLog::new();
        let r = walk_shrink_residuals(&mut reader, &mut log);
        assert!(matches!(r, Err(WalkError::Read(RowError::Unreadable(t))) if t == name));
        assert_eq!(log.residuals, vec![0; expected], "{}", name);
    }
}

#[test]
fn the_first_row_that_cannot_be_read_ends_the_walk() {
    for name in ["Select", "pre/Select", "BaseAlu", "Poseidon2WideDeg3", "public_values",
        "MemoryVar", "perm_challenges", "perm_meta/Select", "pre/MemoryVar", "perm/Select"]
    {
        let mut reader = PvorReader::open(cut_short(name)).unwrap();
        let mut log = ResidualLog::new();
        let r = walk_shrink_residuals(&mut reader, &mut log);
        assert!(matches!(r, Err(WalkError::Read(RowError::Unreadable(t))) if t == name), "{}", name);
        assert!(log.residuals.len() < 1592);
        let mut again = PvorReader::open(cut_short(name)).unwrap();
        let tag = compute_shrink_tag(&mut again, tag_params());
        assert!(matches!(
            tag,
            Err(TagError::Walk(WalkError::Read(RowError::Unreadable(t)))) if t == name
        ));
    }
}

fn with_table(name: &str, values: Vec<u32>) -> Vec<ExportedTable> {
    let mut all = tables();
    all.push(ExportedTable { name: name.to_string(), rows: 1, cols: values.len() as u32, values });
    all
}

#[test]
fn tables_that_are_not_read_do_not_matter() {
    let mut bytes = container(&with_table("unused", vec![u32::MAX, 1]));
    bytes.truncate(bytes.len() - 4);
    let mut reader = PvorReader::open(bytes).unwrap();
    let mut log = ResidualLog::new();
    walk_shrink_residuals(&mut reader, &mut log).unwrap();
    assert_eq!(log.residuals, vec![0; 1592]);
    let mut reader = PvorReader::open(container(&with_table("unused", vec![u32::MAX]))).unwrap();
    let mut log = ResidualLog::new();
    assert!(matches!(try_walk_shrink_residuals(&mut reader, &mut log), Some(Ok(()))));
    assert!(matches!(try_compute_shrink_tag(&mut reader, tag_params()), Some(Ok(_))));
}

#[test]
fn numbers_that_are_no_field_elements_are_refused() {
    for name in ["Select", "pre/BatchFRI", "public_values", "perm_challenges", "MemoryVar",
        "pre/MemoryConst", "perm/BaseAlu"]
    {
        let mut all = tables();
        table(&mut all, name).values[0] = 2013265921;
        let mut reader = PvorReader::open(container(&all)).unwrap();
        let mut log = ResidualLog::new();
        assert!(try_walk_shrink_residuals(&mut reader, &mut log).is_none(), "{}", name);
        assert!(log.residuals.is_empty());
        assert!(try_compute_shrink_tag(&mut reader, tag_params()).is_none());
        let mut out = vec![1u8];
        let params =
            ShrinkResidualStreamParams { statement_hex: "00", shape_id: "s", slot_count: 4 };
        assert!(try_write_shrink_residual_stream(&mut reader, &mut out, params).is_none());
        assert_eq!(out, vec![1u8]);
        assert!(!are_tables_canonical(&mut reader, &shrink_chips()));
    }
    let mut reader = PvorReader::open(container(&tables())).unwrap();
    assert!(are_tables_canonical(&mut reader, &shrink_chips()));
    let mut out: Vec<u8> = Vec::new();
    let params = ShrinkResidualStreamParams { statement_hex: "00", shape_id: "s", slot_count: 4 };
    let r = try_write_shrink_residual_stream(&mut reader, &mut out, params).unwrap().unwrap();
    assert_eq!((r.residuals_emitted, r.block_count, out.len()), (1592, 398, 92 + 4 * 1592));
}

#[test]
fn equal_tables_have_equal_tags_and_streams() {
    let all = tables();
    let mut reader = PvorReader::open(container(&all)).unwrap();
    let matrices: Vec<(String, RowMatrix)> = all
        .into_iter()
        .map(|t| (t.name, RowMatrix { values: t.values, width: t.cols as usize }))
        .collect();
    let refs: Vec<(&str, &RowMatrix)> = matrices.iter().map(|(n, m)| (n.as_str(), m)).collect();
    let mut memory = InMemoryRowProvider::new(&refs, &[]);
    let mut params = tag_params();
    params.alpha_hex = Some("0100000000000000000000000000000000000000000000000000000000000000");
    let a = compute_shrink_tag(&mut reader, params).unwrap();
    params.shape_id = "other";
    params.print_alpha = true;
    let b = compute_shrink_tag(&mut memory, params).unwrap();
    assert_eq!(a.residuals_emitted, b.residuals_emitted);
    assert_eq!(a.tag_mod_p, b.tag_mod_p);
    assert_eq!(a.alpha_mod_p, b.alpha_mod_p);
    assert_eq!((a.unlock, b.unlock), (Some(false), Some(false)));
    let params = ShrinkResidualStreamParams { statement_hex: "00", shape_id: "s", slot_count: 7 };
    let mut x: Vec<u8> = Vec::new();
    let mut y: Vec<u8> = Vec::new();
    write_shrink_residual_stream(&mut reader, &mut x, params).unwrap();
    write_shrink_residual_stream(&mut memory, &mut y, params).unwrap();
    assert_eq!(x, y);
}

fn tag_params<'a>() -> ShrinkTagParams<'a> {
    ShrinkTagParams {
        statement_hex: " 73746174656d656e74 ",
        armer_id: 7,
        tag_seed_hex: "000102030405060708090a0b0c0d0e0f101112131415161718191a1b1c1d1e1f",
        shape_id: "shrink_v1",
        alpha_hex: None,
        alpha_seed_hex: None,
        print_alpha: false,
    }
}

#[test]
fn sound_traces_unlock_the_target_zero() {
    let mut reader = PvorReader::open(container(&tables())).unwrap();
    let mut params = tag_params();
    params.alpha_hex = Some("0000000000000000000000000000000000000000000000000000000000000000");
    let r = compute_shrink_tag(&mut reader, params).unwrap();
    assert_eq!(r.residuals_emitted, 1592);
    assert_eq!(r.tag_mod_p, [0, 0, 0, 0]);
    assert_eq!(r.unlock, Some(true));
}

#[test]
fn the_tag_is_that_of_the_residuals() {
    let mut all = tables();
    table(&mut all, "Select").values[1] = 5;
    let (_, log) = walk(&all);
    let mut seed = [0u8; 32];
    for i in 0..32 {
        seed[i] = i as u8;
    }
    let mut reader = PvorReader::open(container(&all)).unwrap();
    let r = compute_shrink_tag(&mut reader, tag_params()).unwrap();
    let sh = shrink_oracle::tag::parse_hex_32(
        "b111c6e1d318f203063e5c16bab43c108326af0aa2f7b65760c95547a43dbe52",
    )
    .unwrap();
    assert_eq!(r.tag_mod_p, residual_tag(&seed, &sh, 7, &log.residuals));
    assert_ne!(r.tag_mod_p, [0, 0, 0, 0]);
    assert_eq!((r.alpha_mod_p, r.unlock), (None, None));
}

#[test]
fn the_tag_reports_what_is_wrong() {
    let mut reader = PvorReader::open(container(&without("Select"))).unwrap();
    let mut params = tag_params();
    params.statement_hex = "7";
    params.tag_seed_hex = "00";
    let r = compute_shrink_tag(&mut reader, params);
    assert!(matches!(r, Err(TagError::Statement(HexError::OddLength))));
    params.statement_hex = "77";
    let r = compute_shrink_tag(&mut reader, params);
    assert!(matches!(r, Err(TagError::TagSeed(KeyError::Length))));
    params = tag_params();
    params.alpha_hex = Some("00");
    let r = compute_shrink_tag(&mut reader, params);
    assert!(matches!(r, Err(TagError::Walk(WalkError::MissingTable(t))) if t == "Select"));
    let mut reader = PvorReader::open(container(&tables())).unwrap();
    let r = compute_shrink_tag(&mut reader, params);
    assert!(matches!(r, Err(TagError::Alpha(KeyError::Length))));
}

#[test]
fn the_stream_carries_the_residuals() {
    let mut all = tables();
    table(&mut all, "Select").values[1] = 5;
    let (_, log) = walk(&all);
    let mut reader = PvorReader::open(container(&all)).unwrap();
    let mut out: Vec<u8> = Vec::new();
    let params = ShrinkResidualStreamParams {
        statement_hex: "73746174656d656e74",
        shape_id: "shrink_v1",
        slot_count: 1000,
    };
    let r = write_shrink_residual_stream(&mut reader, &mut out, params).unwrap();
    assert_eq!((r.slot_count, r.block_count, r.residuals_emitted), (1000, 2, 1592));
    let text: String = r.statement_hash.iter().map(|b| format!("{:02x}", b)).collect();
    assert_eq!(text, "b111c6e1d318f203063e5c16bab43c108326af0aa2f7b65760c95547a43dbe52");
    let text: String = r.shape_id_hash.iter().map(|b| format!("{:02x}", b)).collect();
    assert_eq!(text, "ae01a51fe81d04be1319e45f918af64abe99ac31fc52b6af2949f340459e9eaf");
    assert_eq!(out.len(), 92 + 4 * 2000);
    assert_eq!(&out[12..20], &2u64.to_le_bytes());
    assert_eq!(&out[20..28], &1592u64.to_le_bytes());
    assert_eq!(&out[28..60], &r.statement_hash);
    assert_eq!(&out[60..92], &r.shape_id_hash);
    let words: Vec<u32> = out[92..]
        .chunks_exact(4)
        .map(|c| u32::from_le_bytes([c[0], c[1], c[2], c[3]]))
        .collect();
    assert_eq!(&words[..1592], &log.residuals[..]);
    assert!(words[1592..].iter().all(|w| *w == 0));
}

#[test]
fn a_stream_that_is_given_up_keeps_its_whole_blocks() {
    let mut reader = PvorReader::open(container(&without("PublicValues"))).unwrap();
    let mut params = ShrinkResidualStreamParams {
        statement_hex: "73746174656d656e74",
        shape_id: "shrink_v1",
        slot_count: 0,
    };
    let mut out: Vec<u8> = vec![1];
    let r = write_shrink_residual_stream(&mut reader, &mut out, params);
    assert!(matches!(r, Err(StreamError::NoSlots)));
    params.slot_count = 16;
    params.statement_hex = "zz";
    let r = write_shrink_residual_stream(&mut reader, &mut out, params);
    assert!(matches!(
        r,
        Err(StreamError::Statement(HexError::InvalidCharacter { c: 'z', index: 0 }))
    ));
    assert_eq!(out, vec![1]);
    params.statement_hex = "";
    let r = write_shrink_residual_stream(&mut reader, &mut out, params);
    assert!(matches!(
        r,
        Err(StreamError::Walk(WalkError::MissingTable(t))) if t == "PublicValues"
    ));
    // 20 residuals were emitted, of which one block of 16 is whole; the counts are not filled in.
    assert_eq!(out.len(), 1 + 92 + 64);
    assert_eq!(&out[13..29], &[0; 16]);
}

#[test]
fn exported_tables_are_in_order() {
    let all = tables();
    let names: Vec<&str> = all.iter().map(|t| t.name.as_str()).collect();
    let chips = [
        "BaseAlu",
        "BatchFRI",
        "ExpReverseBitsLen",
        "ExtAlu",
        "MemoryConst",
        "MemoryVar",
        "Poseidon2WideDeg3",
        "PublicValues",
        "Select",
    ];
    let mut expected: Vec<String> =
        vec!["public_values".to_string(), "perm_challenges".to_string()];
    for c in chips {
        expected.push(format!("pre/{}", c));
    }
    for c in chips {
        expected.push(c.to_string());
    }
    for c in chips {
        expected.push(format!("perm/{}", c));
        expected.push(format!("perm_meta/{}", c));
    }
    assert_eq!(names, expected);
    assert_eq!((all[0].rows, all[0].cols), (1, 231));
    assert_eq!(all[0].values, public_values()[..231].to_vec());
    let perm = all.iter().find(|t| t.name == "perm/MemoryVar").unwrap();
    assert_eq!((perm.rows, perm.cols, perm.values.len()), (4, 8, 32));
    // The memory chips hold arbitrary values, so that their sums are not trivial.
    assert!(perm.values.iter().all(|v| *v != 0));
}

#[test]
fn traces_that_cannot_be_exported_are_refused() {
    let (mut main, pre) = traces();
    let pv = public_values();
    let r = export_shrink_tables(&pv[..230], &main, &pre);
    assert!(matches!(r, Err(ExportError::PublicValues)));
    let r = export_shrink_tables(&vec![2013265921; 231], &main, &pre);
    assert!(matches!(r, Err(ExportError::PublicValues)));
    let r = export_shrink_tables(&pv, &[], &pre);
    assert!(matches!(r, Err(ExportError::NoTraces)));
    main[1].trace.values.truncate(3 * 8);
    let r = export_shrink_tables(&pv, &main, &pre);
    assert!(matches!(r, Err(ExportError::Trace(t)) if t == "MemoryVar"));
    main[1].trace.values.truncate(2 * 8);
    let r = export_shrink_tables(&pv, &main, &pre);
    assert!(matches!(r, Err(ExportError::Permutation(t)) if t == "MemoryVar"));
}

#[test]
fn a_fingerprint_of_zero_is_refused() {
    // The interactions of a memory chip over zeros have the fingerprint alpha + argument index.
    let (mut main, mut pre) = traces();
    for t in main.iter_mut().chain(pre.iter_mut()) {
        if t.name == "MemoryVar" {
            t.trace.values = vec![0; t.trace.values.len()];
        }
    }
    let chips = shrink_chips();
    let index = chips[1].interactions[0].argument_index as u32;
    let zero = BBExt { c0: 0, c1: 0, c2: 0, c3: 0 };
    let bad = BBExt { c0: 2013265921 - index, c1: 0, c2: 0, c3: 0 };
    let r = export_with_challenges(&public_values(), &main[1..2], &pre[1..2], bad, zero);
    assert!(matches!(r, Err(ExportError::Permutation(t)) if t == "MemoryVar"));
    let good = BBExt { c0: 2013265921 - index, c1: 1, c2: 0, c3: 0 };
    let r = export_with_challenges(&public_values(), &main[1..2], &pre[1..2], good, zero);
    assert_eq!(r.unwrap().len(), 6);
}

#[test]
fn dimensions_come_from_the_provider() {
    let reader = PvorReader::open(container(&tables())).unwrap();
    assert_eq!(reader.dims("Poseidon2WideDeg3"), Some((4, 313)));
    assert_eq!(reader.dims("pre/Poseidon2WideDeg3"), Some((4, 49)));
}

#[test]
fn malformed_parameters_are_reported_whatever_the_tables() {
    let mut all = tables();
    table(&mut all, "Select").values[0] = 2013265921;
    all.retain(|t| t.name != "pre/Select");
    let mut p = PvorReader::open(container(&all)).unwrap();
    let mut params = tag_params();
    params.statement_hex = "0g";
    assert!(matches!(compute_shrink_tag(&mut p, params), Err(TagError::Statement(_))));
    assert!(matches!(try_compute_shrink_tag(&mut p, params), Some(Err(TagError::Statement(_)))));
    let mut params = tag_params();
    params.tag_seed_hex = "00";
    assert!(matches!(compute_shrink_tag(&mut p, params), Err(TagError::TagSeed(KeyError::Length))));
    assert!(matches!(
        try_compute_shrink_tag(&mut p, params),
        Some(Err(TagError::TagSeed(KeyError::Length)))
    ));
    let mut out = vec![1u8];
    let params = ShrinkResidualStreamParams { statement_hex: "0g", shape_id: "s", slot_count: 4 };
    assert!(matches!(
        write_shrink_residual_stream(&mut p, &mut out, params),
        Err(StreamError::Statement(_))
    ));
    assert!(matches!(
        try_write_shrink_residual_stream(&mut p, &mut out, params),
        Some(Err(StreamError::Statement(_)))
    ));
    let params = ShrinkResidualStreamParams { statement_hex: "00", shape_id: "s", slot_count: 0 };
    assert!(matches!(
        write_shrink_residual_stream(&mut p, &mut out, params),
        Err(StreamError::NoSlots)
    ));
    assert!(matches!(
        try_write_shrink_residual_stream(&mut p, &mut out, params),
        Some(Err(StreamError::NoSlots))
    ));
    assert_eq!(out, vec![1u8]);
}
