//! The residual stream of the shrink verifier relation: every local constraint of every chip, and
//! then the permutation argument.

use vstd::prelude::*;

use crate::babybear::{canonical, is_canonical_row};
use crate::binding::{permutation_outcome, walk_permutation};
use crate::chips::base_alu::{base_alu_outcome, walk_base_alu};
use crate::chips::batch_fri::{batch_fri_outcome, walk_batch_fri};
use crate::chips::exp_reverse_bits::{exp_reverse_bits_outcome, walk_exp_reverse_bits};
use crate::chips::ext_alu::{ext_alu_outcome, walk_ext_alu};
use crate::chips::poseidon2::{
    poseidon2_outcome, round_constants, round_constants_model, walk_poseidon2, Poseidon2WideDeg3,
};
use crate::chips::public_values::{public_values_outcome, walk_public_values};
use crate::chips::select::{select_outcome, walk_select};
use crate::machine::{chips_view, shrink_chips, shrink_chips_model, ChipInfo, ChipView};
use crate::permutation::chip_ready;
use crate::residuals::{
    emits, fails, followed_by, in_sequence, lemma_extend_empty, Outcome, ResidualLog,
};
use crate::rows::{table_canonical, RowProvider, TableModel};
use crate::text::concat_str;
use crate::walk_error::{
    lemma_ran_stopped, lemma_ran_then, lemma_sequence_start, lemma_sequence_step,
    ran, WalkError, WalkErrorView,
};

verus! {

/// The tables that the local constraints read.
pub open spec fn local_tables() -> Seq<Seq<char>> {
    seq![
        "Select"@,
        "pre/Select"@,
        "PublicValues"@,
        "pre/PublicValues"@,
        "BaseAlu"@,
        "pre/BaseAlu"@,
        "ExtAlu"@,
        "pre/ExtAlu"@,
        "BatchFRI"@,
        "pre/BatchFRI"@,
        "ExpReverseBitsLen"@,
        "pre/ExpReverseBitsLen"@,
        "Poseidon2WideDeg3"@,
    ]
}

/// The tables that the local constraints read hold canonical field elements.
pub open spec fn local_canonical(tables: Map<Seq<char>, TableModel>) -> bool {
    forall|i: int| 0 <= i < local_tables().len() ==> table_canonical(tables, #[trigger] local_tables()[i])
}

/// The tables that the walk reads as field elements, for given chips, hold canonical ones.
pub open spec fn tables_canonical(
    tables: Map<Seq<char>, TableModel>,
    chips: Seq<ChipView>,
) -> bool {
    &&& local_canonical(tables)
    &&& table_canonical(tables, "public_values"@)
    &&& table_canonical(tables, "perm_challenges"@)
    &&& forall|c: int| 0 <= c < chips.len() ==> chip_ready(tables, #[trigger] chips[c])
}

/// What looking for the memory tables does. Their constraints are interactions only, so they emit no
/// residuals of their own.
pub open spec fn memory_outcome(tables: Map<Seq<char>, TableModel>) -> Outcome<WalkErrorView> {
    if !tables.contains_key("MemoryVar"@) {
        fails(WalkErrorView::MissingTable("MemoryVar"@))
    } else if !tables.contains_key("pre/MemoryVar"@) {
        fails(WalkErrorView::MissingTable("pre/MemoryVar"@))
    } else if !tables.contains_key("pre/MemoryConst"@) {
        fails(WalkErrorView::MissingTable("pre/MemoryConst"@))
    } else if !tables.contains_key("MemoryConst"@) {
        fails(WalkErrorView::MissingTable("MemoryConst"@))
    } else {
        emits(Seq::empty())
    }
}

/// What walking the local constraints does, chip by chip.
pub open spec fn local_steps(tables: Map<Seq<char>, TableModel>, rc: Seq<Seq<u32>>) -> Seq<
    Outcome<WalkErrorView>,
> {
    seq![
        select_outcome(tables),
        public_values_outcome(tables),
        base_alu_outcome(tables),
        ext_alu_outcome(tables),
        batch_fri_outcome(tables),
        memory_outcome(tables),
        exp_reverse_bits_outcome(tables),
        poseidon2_outcome(tables, rc),
    ]
}

/// What walking the local constraints does, for given Poseidon2 round constants.
pub open spec fn local_outcome(tables: Map<Seq<char>, TableModel>, rc: Seq<Seq<u32>>) -> Outcome<
    WalkErrorView,
> {
    in_sequence(local_steps(tables, rc), 8)
}

/// What walking all constraints does, for given round constants and chips.
pub open spec fn relation_outcome(
    tables: Map<Seq<char>, TableModel>,
    rc: Seq<Seq<u32>>,
    chips: Seq<ChipView>,
) -> Outcome<WalkErrorView> {
    followed_by(local_outcome(tables, rc), permutation_outcome(tables, chips))
}

/// What walking all constraints of the shrink machine does.
pub open spec fn shrink_outcome(tables: Map<Seq<char>, TableModel>) -> Outcome<WalkErrorView> {
    relation_outcome(tables, round_constants_model(), shrink_chips_model())
}

/// Looks for the memory tables.
pub fn walk_memory<P: RowProvider>(p: &mut P, log: &mut ResidualLog) -> (r: Result<(), WalkError>)
    ensures
        ran(*old(p), *final(p), old(log)@, final(log)@, r, memory_outcome(old(p).tables())),
{
    proof {
        lemma_extend_empty(log@);
    }
    if p.dims("MemoryVar").is_none() {
        return Err(WalkError::MissingTable("MemoryVar".to_owned()));
    }
    if p.dims("pre/MemoryVar").is_none() {
        return Err(WalkError::MissingTable("pre/MemoryVar".to_owned()));
    }
    if p.dims("pre/MemoryConst").is_none() {
        return Err(WalkError::MissingTable("pre/MemoryConst".to_owned()));
    }
    if p.dims("MemoryConst").is_none() {
        return Err(WalkError::MissingTable("MemoryConst".to_owned()));
    }
    Ok(())
}

/// Walks the local constraint number `i`.
fn walk_local_step<P: RowProvider>(
    p: &mut P,
    log: &mut ResidualLog,
    poseidon2: &Poseidon2WideDeg3,
    i: usize,
) -> (r: Result<(), WalkError>)
    requires
        i < 8,
        local_canonical(old(p).tables()),
        poseidon2.wf(),
    ensures
        ran(
            *old(p),
            *final(p),
            old(log)@,
            final(log)@,
            r,
            local_steps(old(p).tables(), poseidon2.constants())[i as int],
        ),
{
    proof {
        let t = p.tables();
        let n = local_tables();
        assert(table_canonical(t, n[0]) && table_canonical(t, n[1]) && table_canonical(t, n[2]));
        assert(table_canonical(t, n[3]) && table_canonical(t, n[4]) && table_canonical(t, n[5]));
        assert(table_canonical(t, n[6]) && table_canonical(t, n[7]) && table_canonical(t, n[8]));
        assert(table_canonical(t, n[9]) && table_canonical(t, n[10]) && table_canonical(t, n[11]));
        assert(table_canonical(t, n[12]));
    }
    if i == 0 {
        walk_select(p, log)
    } else if i == 1 {
        walk_public_values(p, log)
    } else if i == 2 {
        walk_base_alu(p, log)
    } else if i == 3 {
        walk_ext_alu(p, log)
    } else if i == 4 {
        walk_batch_fri(p, log)
    } else if i == 5 {
        walk_memory(p, log)
    } else if i == 6 {
        walk_exp_reverse_bits(p, log)
    } else {
        walk_poseidon2(p, log, poseidon2)
    }
}

/// Walks the local constraints of all chips, with given Poseidon2 round constants.
pub fn walk_local<P: RowProvider>(
    p: &mut P,
    log: &mut ResidualLog,
    poseidon2: &Poseidon2WideDeg3,
) -> (r: Result<(), WalkError>)
    requires
        local_canonical(old(p).tables()),
        poseidon2.wf(),
    ensures
        ran(
            *old(p),
            *final(p),
            old(log)@,
            final(log)@,
            r,
            local_outcome(old(p).tables(), poseidon2.constants()),
        ),
{
    let ghost tables = p.tables();
    let ghost steps = local_steps(tables, poseidon2.constants());
    let mut i: usize = 0;
    proof {
        lemma_sequence_start(*p, log@, steps);
    }
    while i < 8
        invariant
            i <= 8,
            tables == old(p).tables(),
            p.tables() == tables,
            local_canonical(tables),
            poseidon2.wf(),
            steps == local_steps(tables, poseidon2.constants()),
            ran(*old(p), *p, old(log)@, log@, Ok(()), in_sequence(steps, i as nat)),
        decreases 8 - i,
    {
        let ghost p1 = *p;
        let ghost log1 = log@;
        let r = walk_local_step(p, log, poseidon2, i);
        proof {
            lemma_sequence_step(*old(p), p1, *p, old(log)@, log1, log@, r, steps, i as nat, 8);
        }
        if r.is_err() {
            return r;
        }
        i += 1;
    }
    Ok(())
}

/// Walks all constraints, with given round constants and chips.
pub fn walk_relation<P: RowProvider>(
    p: &mut P,
    log: &mut ResidualLog,
    poseidon2: &Poseidon2WideDeg3,
    chips: &[ChipInfo],
) -> (r: Result<(), WalkError>)
    requires
        tables_canonical(old(p).tables(), chips_view(chips@)),
        poseidon2.wf(),
        chips@.len() > 0,
    ensures
        ran(
            *old(p),
            *final(p),
            old(log)@,
            final(log)@,
            r,
            relation_outcome(old(p).tables(), poseidon2.constants(), chips_view(chips@)),
        ),
{
    let ghost tables = p.tables();
    let ghost view = chips_view(chips@);
    let ghost a = local_outcome(tables, poseidon2.constants());
    let ghost b = permutation_outcome(tables, view);
    if let Err(e) = walk_local(p, log, poseidon2) {
        proof {
            lemma_ran_stopped(*old(p), *p, old(log)@, log@, e, a, b);
        }
        return Err(e);
    }
    let ghost p1 = *p;
    let ghost log1 = log@;
    assert forall|i: int| 0 <= i < chips@.len() implies chip_ready(
        tables,
        (#[trigger] chips@[i])@,
    ) by {
        assert(view[i] == chips@[i]@);
    }
    let r = walk_permutation(p, log, chips);
    proof {
        lemma_ran_then(*old(p), p1, *p, old(log)@, log1, log@, r, a, b);
    }
    r
}

/// Walks all constraints of the shrink machine in a fixed order, and emits one residual for each: 0
/// where it holds, 1 where it fails.
pub fn walk_shrink_residuals<P: RowProvider>(p: &mut P, log: &mut ResidualLog) -> (r: Result<
    (),
    WalkError,
>)
    requires
        tables_canonical(old(p).tables(), shrink_chips_model()),
    ensures
        ran(*old(p), *final(p), old(log)@, final(log)@, r, shrink_outcome(old(p).tables())),
{
    let poseidon2 = Poseidon2WideDeg3 { round_constants: round_constants() };
    let chips = shrink_chips();
    assert(chips_view(chips@).len() == chips@.len());
    walk_relation(p, log, &poseidon2, &chips)
}

/// Tells whether all values of a table that can be read are canonical field elements.
fn is_table_canonical<P: RowProvider>(p: &mut P, table: &str) -> (r: bool)
    ensures
        final(p).tables() == old(p).tables(),
        r == table_canonical(old(p).tables(), table@),
{
    let rows: u32 = match p.dims(table) {
        Some((n, _)) => n,
        None => {
            return true;
        },
    };
    let ghost t = p.tables()[table@];
    let mut row: u32 = 0;
    while row < rows
        invariant
            row <= rows,
            p.tables() == old(p).tables(),
            p.tables().contains_key(table@),
            t == p.tables()[table@],
            rows == t.rows,
            forall|i: int| 0 <= i < row && t.readable[i] ==> canonical(#[trigger] t.data[i]),
        decreases rows - row,
    {
        if let Ok(values) = p.read_row_u32(table, row) {
            if !is_canonical_row(&values) {
                return false;
            }
        }
        row += 1;
    }
    true
}

/// Tells whether the tables that the local constraints read hold canonical field elements.
fn is_local_canonical<P: RowProvider>(p: &mut P) -> (r: bool)
    ensures
        final(p).tables() == old(p).tables(),
        r == local_canonical(old(p).tables()),
{
    let names = [
        "Select", "pre/Select", "PublicValues", "pre/PublicValues", "BaseAlu", "pre/BaseAlu",
        "ExtAlu", "pre/ExtAlu", "BatchFRI", "pre/BatchFRI", "ExpReverseBitsLen",
        "pre/ExpReverseBitsLen", "Poseidon2WideDeg3",
    ];
    let mut i: usize = 0;
    while i < 13
        invariant
            i <= 13,
            p.tables() == old(p).tables(),
            names@.len() == 13,
            forall|k: int| 0 <= k < 13 ==> (#[trigger] names@[k])@ == local_tables()[k],
            forall|k: int|
                0 <= k < i ==> table_canonical(p.tables(), #[trigger] local_tables()[k]),
        decreases 13 - i,
    {
        assert(names@[i as int]@ == local_tables()[i as int]);
        if !is_table_canonical(p, names[i]) {
            return false;
        }
        i += 1;
    }
    true
}

/// Tells whether the tables that the walk reads as field elements, for given chips, hold canonical
/// ones. Rows that cannot be read are left to the walk, which reports them.
pub fn are_tables_canonical<P: RowProvider>(p: &mut P, chips: &[ChipInfo]) -> (r: bool)
    ensures
        final(p).tables() == old(p).tables(),
        r == tables_canonical(old(p).tables(), chips_view(chips@)),
{
    if !is_local_canonical(p) || !is_table_canonical(p, "public_values") || !is_table_canonical(
        p,
        "perm_challenges",
    ) {
        return false;
    }
    let ghost view = chips_view(chips@);
    let mut i: usize = 0;
    while i < chips.len()
        invariant
            i <= chips@.len(),
            view == chips_view(chips@),
            p.tables() == old(p).tables(),
            local_canonical(p.tables()),
            table_canonical(p.tables(), "public_values"@),
            table_canonical(p.tables(), "perm_challenges"@),
            forall|k: int| 0 <= k < i ==> chip_ready(p.tables(), #[trigger] view[k]),
        decreases chips@.len() - i,
    {
        let name = chips[i].name.as_str();
        assert(view[i as int] == chips@[i as int]@);
        if !is_table_canonical(p, name) || !is_table_canonical(
            p,
            concat_str("pre/", name).as_str(),
        ) || !is_table_canonical(p, concat_str("perm/", name).as_str()) {
            return false;
        }
        i += 1;
    }
    true
}

/// Walks all constraints of the shrink machine where the tables hold canonical field elements;
/// otherwise gives `None` and emits nothing.
pub fn try_walk_shrink_residuals<P: RowProvider>(p: &mut P, log: &mut ResidualLog) -> (r: Option<
    Result<(), WalkError>,
>)
    ensures
        final(p).tables() == old(p).tables(),
        match r {
            Some(walked) => {
                &&& tables_canonical(old(p).tables(), shrink_chips_model())
                &&& ran(
                    *old(p),
                    *final(p),
                    old(log)@,
                    final(log)@,
                    walked,
                    shrink_outcome(old(p).tables()),
                )
            },
            None => {
                &&& !tables_canonical(old(p).tables(), shrink_chips_model())
                &&& *final(log) == *old(log)
            },
        },
{
    if !are_tables_canonical(p, &shrink_chips()) {
        return None;
    }
    Some(walk_shrink_residuals(p, log))
}

} // verus!
