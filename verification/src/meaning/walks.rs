//! Where the residual of each constraint stands in a walk: chip by chip, row by row.

use vstd::prelude::*;

use crate::binding::{argument_outcome, binding_trace, permutation_outcome};
use crate::chips::base_alu::{base_alu_outcome, base_lane, base_lane_at, BaseAlu};
use crate::chips::batch_fri::{batch_fri_outcome, BatchFri};
use crate::chips::exp_reverse_bits::{exp_reverse_bits_outcome, ExpReverseBits};
use crate::chips::ext_alu::{ext_alu_outcome, ext_lane, ExtAlu};
use crate::chips::lanes;
use crate::chips::poseidon2::{
    external_round, internal_round, joint, poseidon2_outcome, poseidon2_residuals, poseidon2_steps,
    round_constants_model,
};
use crate::chips::public_values::{public_values_outcome, PublicValues};
use crate::chips::select::{select_outcome, SelectMain, SelectPre};
use crate::constraints::{
    link_step, row_check_outcome, row_check_steps, transition_outcome, transition_step,
    transition_steps, RowCheck, TransitionCheck,
};
use crate::extension::BBExt;
use crate::machine::{shrink_chips_model, ChipView};
use crate::permutation::{
    chip_outcome, chip_steps, chips_outcome, permutation_row, permutation_steps,
};
use crate::residuals::{followed_by, in_sequence, row_emissions, Emission, Outcome, Section};
use crate::rows::TableModel;
use crate::walk::{local_steps, memory_outcome, shrink_outcome};
use crate::walk_error::WalkErrorView;

verus! {

/// A table is there, and all its rows can be read.
pub open spec fn is_whole(
    tables: Map<Seq<char>, TableModel>,
    table: Seq<char>,
    rows: u32,
    cols: u32,
) -> bool {
    &&& tables.contains_key(table)
    &&& tables[table].rows == rows
    &&& tables[table].cols == cols
    &&& forall|i: int| 0 <= i < rows ==> #[trigger] tables[table].readable[i]
}

/// Steps that each emit `w` values stand one behind the other.
proof fn lemma_even_steps(steps: Seq<Outcome<WalkErrorView>>, w: nat, n: nat)
    requires
        n <= steps.len(),
        forall|i: int|
            0 <= i < steps.len() ==> (#[trigger] steps[i]).error is None && steps[i].trace.len() == w,
    ensures
        in_sequence(steps, n).error is None,
        in_sequence(steps, n).trace.len() == n * w,
        forall|i: int, k: int|
            0 <= i < n && 0 <= k < w ==> in_sequence(steps, n).trace[i * w + k]
                == #[trigger] steps[i].trace[k],
    decreases n,
{
    if n > 0 {
        let m = (n - 1) as nat;
        lemma_even_steps(steps, w, m);
        let before = in_sequence(steps, m).trace;
        assert(n * w == m * w + w) by (nonlinear_arith)
            requires
                n == m + 1,
        ;
        assert forall|i: int, k: int| 0 <= i < n && 0 <= k < w implies in_sequence(steps, n).trace[i
            * w + k] == #[trigger] steps[i].trace[k] by {
            if i < m {
                assert(0 <= i * w + k < m * w) by (nonlinear_arith)
                    requires
                        0 <= i < m,
                        0 <= k < w,
                ;
                assert(before[i * w + k] == steps[i].trace[k]);
            } else {
                assert(i * w + k == m * w + k);
            }
        }
    }
}

/// A row constraint that gives `w` residuals on each row: the residuals of row `i` stand from place
/// `i * w` on, with the row's number.
proof fn lemma_rows_walk<C: RowCheck>(
    c: C,
    section: Section,
    tables: Map<Seq<char>, TableModel>,
    main: Seq<char>,
    pre: Option<Seq<char>>,
    n: u32,
    w: nat,
    i: int,
)
    requires
        is_whole(tables, main, n, tables[main].cols),
        pre matches Some(t) ==> is_whole(tables, t, n, tables[t].cols),
        forall|j: int|
            0 <= j < n ==> c.residuals(
                #[trigger] tables[main].data[j],
                if pre is Some {
                    tables[pre->0].data[j]
                } else {
                    Seq::empty()
                },
            ).len() == w,
    ensures
        ({
            let o = row_check_outcome(c, section, tables, main, pre, n as nat);
            &&& o.error is None
            &&& o.trace.len() == n * w
            &&& 0 <= i < n ==> forall|k: int|
                0 <= k < w ==> #[trigger] o.trace[i * w + k] == (Emission {
                    section,
                    row: Some(i as u32),
                    value: c.residuals(
                        tables[main].data[i],
                        if pre is Some {
                            tables[pre->0].data[i]
                        } else {
                            Seq::empty()
                        },
                    )[k],
                })
        }),
{
    let steps = row_check_steps(c, section, tables, main, pre, n as nat);
    assert forall|j: int| 0 <= j < steps.len() implies (#[trigger] steps[j]).error is None
        && steps[j].trace.len() == w by {
        assert(tables[main].readable[j]);
        assert(tables[main].data[j] == tables[main].data[j]);
        if pre is Some {
            assert(tables[pre->0].readable[j]);
        }
    }
    lemma_even_steps(steps, w, n as nat);
    if 0 <= i < n {
        assert(tables[main].readable[i]);
        if pre is Some {
            assert(tables[pre->0].readable[i]);
        }
        let o = row_check_outcome(c, section, tables, main, pre, n as nat);
        assert forall|k: int| 0 <= k < w implies #[trigger] o.trace[i * w + k] == (Emission {
            section,
            row: Some(i as u32),
            value: c.residuals(
                tables[main].data[i],
                if pre is Some {
                    tables[pre->0].data[i]
                } else {
                    Seq::empty()
                },
            )[k],
        }) by {
            assert(o.trace[i * w + k] == steps[i].trace[k]);
        }
    }
}

/// The `Select` chip: three residuals for each main row, and behind them two for each preprocessed row.
pub proof fn law_select_walk(tables: Map<Seq<char>, TableModel>, n: u32, i: int)
    requires
        is_whole(tables, "Select"@, n, 5),
        is_whole(tables, "pre/Select"@, n, 8),
    ensures
        ({
            let o = select_outcome(tables);
            &&& o.error is None
            &&& o.trace.len() == 5 * n
            &&& 0 <= i < n ==> forall|k: int|
                0 <= k < 3 ==> #[trigger] o.trace[i * 3 + k] == (Emission {
                    section: Section::Select,
                    row: Some(i as u32),
                    value: SelectMain.residuals(tables["Select"@].data[i], Seq::empty())[k],
                })
            &&& 0 <= i < n ==> forall|k: int|
                0 <= k < 2 ==> #[trigger] o.trace[3 * n + i * 2 + k] == (Emission {
                    section: Section::Select,
                    row: Some(i as u32),
                    value: SelectPre.residuals(tables["pre/Select"@].data[i], Seq::empty())[k],
                })
        }),
{
    lemma_rows_walk(SelectMain, Section::Select, tables, "Select"@, None, n, 3, i);
    lemma_rows_walk(SelectPre, Section::Select, tables, "pre/Select"@, None, n, 2, i);
    let a = row_check_outcome(SelectMain, Section::Select, tables, "Select"@, None, n as nat);
    let b = row_check_outcome(SelectPre, Section::Select, tables, "pre/Select"@, None, n as nat);
    let o = select_outcome(tables);
    assert(o == followed_by(a, b));
    if 0 <= i < n {
        assert forall|k: int| 0 <= k < 2 implies #[trigger] o.trace[3 * n + i * 2 + k] == (Emission {
            section: Section::Select,
            row: Some(i as u32),
            value: SelectPre.residuals(tables["pre/Select"@].data[i], Seq::empty())[k],
        }) by {
            assert(o.trace[3 * n + i * 2 + k] == b.trace[i * 2 + k]);
        }
    }
}

/// The `PublicValues` chip: two residuals for each row.
pub proof fn law_public_values_walk(tables: Map<Seq<char>, TableModel>, n: u32, i: int)
    requires
        is_whole(tables, "PublicValues"@, n, 1),
        is_whole(tables, "pre/PublicValues"@, n, 10),
    ensures
        ({
            let o = public_values_outcome(tables);
            &&& o.error is None
            &&& o.trace.len() == n * 2
            &&& 0 <= i < n ==> forall|k: int|
                0 <= k < 2 ==> #[trigger] o.trace[i * 2 + k] == (Emission {
                    section: Section::PublicValues,
                    row: Some(i as u32),
                    value: PublicValues.residuals(
                        tables["PublicValues"@].data[i],
                        tables["pre/PublicValues"@].data[i],
                    )[k],
                })
        }),
{
    lemma_rows_walk(
        PublicValues,
        Section::PublicValues,
        tables,
        "PublicValues"@,
        Some("pre/PublicValues"@),
        n,
        2,
        i,
    );
}

/// A fixed number of residuals for each of several lanes.
proof fn lemma_lanes_width(f: spec_fn(int) -> Seq<u32>, n: nat, w: nat)
    requires
        forall|i: int| 0 <= i < n ==> (#[trigger] f(i)).len() == w,
    ensures
        lanes(f, n).len() == n * w,
    decreases n,
{
    if n > 0 {
        lemma_lanes_width(f, (n - 1) as nat, w);
        assert(f(n - 1).len() == w);
        assert(n * w == (n - 1) * w + w) by (nonlinear_arith);
    } else {
        assert(0 * w == 0);
    }
}

/// The `BaseAlu` chip: twelve residuals for each row.
pub proof fn law_base_alu_walk(tables: Map<Seq<char>, TableModel>, n: u32, i: int)
    requires
        is_whole(tables, "BaseAlu"@, n, 12),
        is_whole(tables, "pre/BaseAlu"@, n, 32),
    ensures
        ({
            let o = base_alu_outcome(tables);
            &&& o.error is None
            &&& o.trace.len() == n * 12
            &&& 0 <= i < n ==> forall|k: int|
                0 <= k < 12 ==> #[trigger] o.trace[i * 12 + k] == (Emission {
                    section: Section::BaseAlu,
                    row: Some(i as u32),
                    value: BaseAlu.residuals(
                        tables["BaseAlu"@].data[i],
                        tables["pre/BaseAlu"@].data[i],
                    )[k],
                })
        }),
{
    assert forall|j: int| 0 <= j < n implies BaseAlu.residuals(
        #[trigger] tables["BaseAlu"@].data[j],
        tables["pre/BaseAlu"@].data[j],
    ).len() == 12 by {
        let (m, q) = (tables["BaseAlu"@].data[j], tables["pre/BaseAlu"@].data[j]);
        let f = base_lane_at(m, q);
        assert forall|l: int| 0 <= l < 4 implies (#[trigger] f(l)).len() == 3 by {
            assert(f(l) == base_lane(m.subrange(3 * l, 3 * l + 3), q.subrange(8 * l, 8 * l + 8)));
        }
        lemma_lanes_width(f, 4, 3);
    }
    lemma_rows_walk(
        BaseAlu,
        Section::BaseAlu,
        tables,
        "BaseAlu"@,
        Some("pre/BaseAlu"@),
        n,
        12,
        i,
    );
}

/// The `ExtAlu` chip: three residuals for each lane of each row.
pub proof fn law_ext_alu_walk(
    tables: Map<Seq<char>, TableModel>,
    n: u32,
    count: u32,
    cols: u32,
    pre_cols: u32,
    i: int,
)
    requires
        cols == 12 * count,
        pre_cols == 8 * count,
        is_whole(tables, "ExtAlu"@, n, cols),
        is_whole(tables, "pre/ExtAlu"@, n, pre_cols),
    ensures
        ({
            let o = ext_alu_outcome(tables);
            &&& o.error is None
            &&& o.trace.len() == n * (3 * count)
            &&& 0 <= i < n ==> forall|k: int|
                0 <= k < 3 * count ==> #[trigger] o.trace[i * (3 * count) + k] == (Emission {
                    section: Section::ExtAlu,
                    row: Some(i as u32),
                    value: (ExtAlu { lanes: count }).residuals(
                        tables["ExtAlu"@].data[i],
                        tables["pre/ExtAlu"@].data[i],
                    )[k],
                })
        }),
{
    let c = ExtAlu { lanes: count };
    let w = (3 * count) as nat;
    assert forall|j: int| 0 <= j < n implies c.residuals(
        #[trigger] tables["ExtAlu"@].data[j],
        tables["pre/ExtAlu"@].data[j],
    ).len() == w by {
        let (m, q) = (tables["ExtAlu"@].data[j], tables["pre/ExtAlu"@].data[j]);
        let f = |l: int| ext_lane(m, q, l);
        assert forall|l: int| 0 <= l < count implies (#[trigger] f(l)).len() == 3 by {}
        lemma_lanes_width(f, count as nat, 3);
    }
    lemma_rows_walk(c, Section::ExtAlu, tables, "ExtAlu"@, Some("pre/ExtAlu"@), n, w, i);
    assert(pre_cols / 8 == count);
    assert(pre_cols % 8 == 0);
}

/// A transition constraint with `w` residuals on each row, its own and those of its links: they stand
/// from place `i * w` on, and the last row has zeros for its links.
proof fn lemma_transitions_walk<C: TransitionCheck>(
    c: C,
    section: Section,
    tables: Map<Seq<char>, TableModel>,
    main: Seq<char>,
    pre: Seq<char>,
    n: u32,
    own: nat,
    i: int,
)
    requires
        is_whole(tables, main, n, tables[main].cols),
        is_whole(tables, pre, n, tables[pre].cols),
        forall|j: int|
            0 <= j < n ==> c.residuals(
                j as u32,
                #[trigger] tables[main].data[j],
                tables[pre].data[j],
            ).len() == own,
        forall|m: Seq<u32>, q: Seq<u32>, nm: Seq<u32>, nq: Seq<u32>| #[trigger]
            c.links(m, q, nm, nq).len() == c.num_links(),
    ensures
        ({
            let o = transition_outcome(c, section, tables, main, pre, n as nat);
            let w = own + c.num_links();
            let (m, q) = (tables[main].data, tables[pre].data);
            &&& o.error is None
            &&& o.trace.len() == n * w
            &&& 0 <= i < n ==> forall|k: int|
                0 <= k < own ==> #[trigger] o.trace[i * w + k] == (Emission {
                    section,
                    row: Some(i as u32),
                    value: c.residuals(i as u32, m[i], q[i])[k],
                })
            &&& 0 <= i < n - 1 ==> forall|k: int|
                0 <= k < c.num_links() ==> #[trigger] o.trace[i * w + (own + k)] == (Emission {
                    section,
                    row: Some(i as u32),
                    value: c.links(
                        m[i],
                        q[i],
                        m[i + 1],
                        if c.looks_at_next_pre() {
                            q[i + 1]
                        } else {
                            Seq::empty()
                        },
                    )[k],
                })
            &&& i == n - 1 && n > 0 ==> forall|k: int|
                0 <= k < c.num_links() ==> #[trigger] o.trace[i * w + (own + k)] == (Emission {
                    section,
                    row: Some(i as u32),
                    value: 0,
                })
        }),
{
    let steps = transition_steps(c, section, tables, main, pre, n as nat);
    let w = own + c.num_links();
    let (m, q) = (tables[main].data, tables[pre].data);
    assert forall|j: int| 0 <= j < steps.len() implies (#[trigger] steps[j]).error is None
        && steps[j].trace.len() == w by {
        lemma_transition_row(c, section, tables, main, pre, n, own, j);
    }
    lemma_even_steps(steps, w, n as nat);
    if 0 <= i < n {
        let o = transition_outcome(c, section, tables, main, pre, n as nat);
        lemma_transition_row(c, section, tables, main, pre, n, own, i);
        assert forall|k: int| 0 <= k < w implies #[trigger] o.trace[i * w + k]
            == steps[i].trace[k] by {}
    }
}

/// What one row of a transition constraint emits where everything can be read.
proof fn lemma_transition_row<C: TransitionCheck>(
    c: C,
    section: Section,
    tables: Map<Seq<char>, TableModel>,
    main: Seq<char>,
    pre: Seq<char>,
    n: u32,
    own: nat,
    i: int,
)
    requires
        0 <= i < n,
        is_whole(tables, main, n, tables[main].cols),
        is_whole(tables, pre, n, tables[pre].cols),
        forall|j: int|
            0 <= j < n ==> c.residuals(
                j as u32,
                #[trigger] tables[main].data[j],
                tables[pre].data[j],
            ).len() == own,
        forall|m: Seq<u32>, q: Seq<u32>, nm: Seq<u32>, nq: Seq<u32>| #[trigger]
            c.links(m, q, nm, nq).len() == c.num_links(),
    ensures
        ({
            let s = transition_step(c, section, tables, main, pre, n as nat, i);
            let (m, q) = (tables[main].data, tables[pre].data);
            &&& s.error is None
            &&& s.trace.len() == own + c.num_links()
            &&& forall|k: int|
                0 <= k < own ==> #[trigger] s.trace[k] == (Emission {
                    section,
                    row: Some(i as u32),
                    value: c.residuals(i as u32, m[i], q[i])[k],
                })
            &&& forall|k: int|
                0 <= k < c.num_links() ==> #[trigger] s.trace[own + k] == (Emission {
                    section,
                    row: Some(i as u32),
                    value: if i < n - 1 {
                        c.links(
                            m[i],
                            q[i],
                            m[i + 1],
                            if c.looks_at_next_pre() {
                                q[i + 1]
                            } else {
                                Seq::empty()
                            },
                        )[k]
                    } else {
                        0
                    },
                })
        }),
{
    let (m, q) = (tables[main].data, tables[pre].data);
    assert(tables[main].readable[i] && tables[pre].readable[i]);
    assert(m[i] == m[i]);
    if i < n - 1 {
        assert(tables[main].readable[i + 1] && tables[pre].readable[i + 1]);
    }
    let a = row_emissions(section, Some(i as u32), c.residuals(i as u32, m[i], q[i]));
    let l = link_step(c, section, tables, main, pre, n as nat, i);
    assert(l.error is None);
    assert(l.trace.len() == c.num_links());
    let s = transition_step(c, section, tables, main, pre, n as nat, i);
    assert(s.trace == a + l.trace);
    assert forall|k: int| 0 <= k < c.num_links() implies s.trace[own + k] == #[trigger] l.trace[k] by {
    }
}

/// The `BatchFRI` chip: three residuals for each row, and one for what follows it.
pub proof fn law_batch_fri_walk(tables: Map<Seq<char>, TableModel>, n: u32, i: int)
    requires
        is_whole(tables, "BatchFRI"@, n, 13),
        is_whole(tables, "pre/BatchFRI"@, n, 6),
    ensures
        ({
            let o = batch_fri_outcome(tables);
            let (m, q) = (tables["BatchFRI"@].data, tables["pre/BatchFRI"@].data);
            &&& o.error is None
            &&& o.trace.len() == n * 4
            &&& 0 <= i < n ==> forall|k: int|
                0 <= k < 3 ==> #[trigger] o.trace[i * 4 + k] == (Emission {
                    section: Section::BatchFri,
                    row: Some(i as u32),
                    value: BatchFri.residuals(i as u32, m[i], q[i])[k],
                })
            &&& 0 <= i < n ==> o.trace[i * 4 + 3] == (Emission {
                section: Section::BatchFri,
                row: Some(i as u32),
                value: if i < n - 1 {
                    BatchFri.links(m[i], q[i], m[i + 1], Seq::empty())[0]
                } else {
                    0
                },
            })
        }),
{
    lemma_transitions_walk(
        BatchFri,
        Section::BatchFri,
        tables,
        "BatchFRI"@,
        "pre/BatchFRI"@,
        n,
        3,
        i,
    );
    if 0 <= i < n {
        let o = batch_fri_outcome(tables);
        assert(o.trace[i * 4 + (3 + 0)] == o.trace[i * 4 + 3]);
    }
}

/// The `ExpReverseBitsLen` chip: six residuals for each row, and two for what follows it.
pub proof fn law_exponentiation_walk(tables: Map<Seq<char>, TableModel>, n: u32, i: int)
    requires
        is_whole(tables, "ExpReverseBitsLen"@, n, 7),
        is_whole(tables, "pre/ExpReverseBitsLen"@, n, 10),
    ensures
        ({
            let o = exp_reverse_bits_outcome(tables);
            let (m, q) = (
                tables["ExpReverseBitsLen"@].data,
                tables["pre/ExpReverseBitsLen"@].data,
            );
            &&& o.error is None
            &&& o.trace.len() == n * 8
            &&& 0 <= i < n ==> forall|k: int|
                0 <= k < 6 ==> #[trigger] o.trace[i * 8 + k] == (Emission {
                    section: Section::ExpReverseBitsLen,
                    row: Some(i as u32),
                    value: ExpReverseBits.residuals(i as u32, m[i], q[i])[k],
                })
            &&& 0 <= i < n ==> forall|k: int|
                0 <= k < 2 ==> #[trigger] o.trace[i * 8 + (6 + k)] == (Emission {
                    section: Section::ExpReverseBitsLen,
                    row: Some(i as u32),
                    value: if i < n - 1 {
                        ExpReverseBits.links(m[i], q[i], m[i + 1], q[i + 1])[k]
                    } else {
                        0
                    },
                })
        }),
{
    lemma_transitions_walk(
        ExpReverseBits,
        Section::ExpReverseBitsLen,
        tables,
        "ExpReverseBitsLen"@,
        "pre/ExpReverseBitsLen"@,
        n,
        6,
        i,
    );
}

/// The number of residuals of a Poseidon2 row.
proof fn lemma_poseidon2_width(row: Seq<u32>, rc: Seq<Seq<u32>>)
    ensures
        poseidon2_residuals(row, rc).len() == 297,
{
    let f = |r: int| external_round(row, rc, r);
    let g = |r: int| internal_round(row, rc, r);
    assert forall|r: int| 0 <= r < 8 implies (#[trigger] f(r)).len() == 32 by {}
    assert forall|r: int| 0 <= r < 12 implies (#[trigger] g(r)).len() == 2 by {}
    lemma_lanes_width(f, 8, 32);
    lemma_lanes_width(g, 12, 2);
    assert(g(12).len() == 1);
    assert(lanes(g, 13) == lanes(g, 12) + g(12));
    assert(joint(row, rc).len() == 16);
}

/// The `Poseidon2WideDeg3` chip: 297 residuals for each row.
pub proof fn law_poseidon2_walk(
    tables: Map<Seq<char>, TableModel>,
    rc: Seq<Seq<u32>>,
    n: u32,
    i: int,
)
    requires
        is_whole(tables, "Poseidon2WideDeg3"@, n, 313),
        tables.contains_key("pre/Poseidon2WideDeg3"@),
        tables["pre/Poseidon2WideDeg3"@].rows == n,
        tables["pre/Poseidon2WideDeg3"@].cols == 49,
    ensures
        ({
            let o = poseidon2_outcome(tables, rc);
            &&& o.error is None
            &&& o.trace.len() == n * 297
            &&& 0 <= i < n ==> forall|k: int|
                0 <= k < 297 ==> #[trigger] o.trace[i * 297 + k] == (Emission {
                    section: Section::Poseidon2WideDeg3,
                    row: Some(i as u32),
                    value: poseidon2_residuals(tables["Poseidon2WideDeg3"@].data[i], rc)[k],
                })
        }),
{
    let steps = poseidon2_steps(tables, rc);
    let t = tables["Poseidon2WideDeg3"@];
    assert forall|j: int| 0 <= j < steps.len() implies (#[trigger] steps[j]).error is None
        && steps[j].trace.len() == 297 by {
        assert(t.readable[j]);
        lemma_poseidon2_width(t.data[j], rc);
    }
    lemma_even_steps(steps, 297, n as nat);
    if 0 <= i < n {
        assert(t.readable[i]);
        lemma_poseidon2_width(t.data[i], rc);
        let o = poseidon2_outcome(tables, rc);
        assert forall|k: int| 0 <= k < 297 implies #[trigger] o.trace[i * 297 + k] == (Emission {
            section: Section::Poseidon2WideDeg3,
            row: Some(i as u32),
            value: poseidon2_residuals(t.data[i], rc)[k],
        }) by {
            assert(o.trace[i * 297 + k] == steps[i].trace[k]);
        }
    }
}

/// The two tables of a pair are there, as wide as they have to be, and of the same height.
pub open spec fn is_pair(
    tables: Map<Seq<char>, TableModel>,
    main: Seq<char>,
    cols: u32,
    pre: Seq<char>,
    pre_cols: u32,
) -> bool {
    &&& tables.contains_key(main)
    &&& tables.contains_key(pre)
    &&& tables[main].cols == cols
    &&& tables[pre].cols == pre_cols
    &&& tables[main].rows == tables[pre].rows
}

/// A walk that ends well emits the residuals of its sections one behind the other: `Select`,
/// `PublicValues`, `BaseAlu`, `ExtAlu`, `BatchFRI`, `ExpReverseBitsLen`, `Poseidon2WideDeg3`, and the
/// permutation argument, each of which ends well. The memory tables emit nothing.
pub proof fn law_walk_order(tables: Map<Seq<char>, TableModel>)
    requires
        shrink_outcome(tables).error is None,
    ensures
        forall|k: int| 0 <= k < 9 ==> (#[trigger] sections(tables)[k]).error is None,
        ({
            let s = sections(tables);
            shrink_outcome(tables).trace == s[0].trace + s[1].trace + s[2].trace + s[3].trace
                + s[4].trace + s[6].trace + s[7].trace + s[8].trace
        }),
{
    lemma_parts(tables);
    lemma_order(
        shrink_outcome(tables),
        local_steps(tables, round_constants_model()),
        sections(tables),
        permutation_outcome(tables, shrink_chips_model()),
    );
}

/// The parts of a walk are its sections.
proof fn lemma_parts(tables: Map<Seq<char>, TableModel>)
    ensures
        local_steps(tables, round_constants_model()).len() == 8,
        sections(tables) == local_steps(tables, round_constants_model()).push(
            permutation_outcome(tables, shrink_chips_model()),
        ),
        shrink_outcome(tables) == followed_by(
            in_sequence(local_steps(tables, round_constants_model()), 8),
            permutation_outcome(tables, shrink_chips_model()),
        ),
        sections(tables)[5] == memory_outcome(tables),
        memory_outcome(tables).error is None ==> memory_outcome(tables).trace.len() == 0,
{
    assert(sections(tables) =~= local_steps(tables, round_constants_model()).push(
        permutation_outcome(tables, shrink_chips_model()),
    ));
}

proof fn lemma_order(
    whole: Outcome<WalkErrorView>,
    steps: Seq<Outcome<WalkErrorView>>,
    all: Seq<Outcome<WalkErrorView>>,
    last: Outcome<WalkErrorView>,
)
    requires
        whole == followed_by(in_sequence(steps, 8), last),
        whole.error is None,
        steps.len() == 8,
        all == steps.push(last),
        all[5].error is None ==> all[5].trace.len() == 0,
    ensures
        forall|k: int| 0 <= k < 9 ==> (#[trigger] all[k]).error is None,
        whole.trace == all[0].trace + all[1].trace + all[2].trace + all[3].trace + all[4].trace
            + all[6].trace + all[7].trace + all[8].trace,
{
    assert forall|j: int| 0 <= j < 8 implies #[trigger] steps[j] == all[j] && all[j].error is None by {
        lemma_no_step_failed(steps, 8, j);
    }
    assert(all[8] == last);
    lemma_goes_on(steps, all, 8);
    lemma_joined(all);
}

/// A walk that ends well found all tables of the machine with their dimensions.
pub proof fn law_walk_finds_tables(tables: Map<Seq<char>, TableModel>)
    requires
        shrink_outcome(tables).error is None,
    ensures
        is_pair(tables, "Select"@, 5, "pre/Select"@, 8),
        is_pair(tables, "PublicValues"@, 1, "pre/PublicValues"@, 10),
        is_pair(tables, "BaseAlu"@, 12, "pre/BaseAlu"@, 32),
        is_pair(tables, "ExtAlu"@, tables["ExtAlu"@].cols, "pre/ExtAlu"@, tables["pre/ExtAlu"@].cols),
        8 * tables["ExtAlu"@].cols == 12 * tables["pre/ExtAlu"@].cols,
        tables["pre/ExtAlu"@].cols % 8 == 0,
        is_pair(tables, "BatchFRI"@, 13, "pre/BatchFRI"@, 6),
        is_pair(tables, "ExpReverseBitsLen"@, 7, "pre/ExpReverseBitsLen"@, 10),
        is_pair(tables, "Poseidon2WideDeg3"@, 313, "pre/Poseidon2WideDeg3"@, 49),
        tables.contains_key("MemoryVar"@),
        tables.contains_key("pre/MemoryVar"@),
        tables.contains_key("MemoryConst"@),
        tables.contains_key("pre/MemoryConst"@),
{
    law_walk_order(tables);
    lemma_section_names(tables);
    lemma_dimensions(tables);
}

proof fn lemma_section_names(tables: Map<Seq<char>, TableModel>)
    requires
        forall|k: int| 0 <= k < 9 ==> (#[trigger] sections(tables)[k]).error is None,
    ensures
        select_outcome(tables).error is None,
        public_values_outcome(tables).error is None,
        base_alu_outcome(tables).error is None,
        ext_alu_outcome(tables).error is None,
        batch_fri_outcome(tables).error is None,
        memory_outcome(tables).error is None,
        exp_reverse_bits_outcome(tables).error is None,
        poseidon2_outcome(tables, round_constants_model()).error is None,
{
    let s = sections(tables);
    assert(s[0].error is None && s[1].error is None && s[2].error is None);
    assert(s[3].error is None && s[4].error is None && s[5].error is None);
    assert(s[6].error is None && s[7].error is None);
}

/// The traces of nine outcomes, of which the sixth emits nothing.
proof fn lemma_joined(list: Seq<Outcome<WalkErrorView>>)
    requires
        list[5].trace.len() == 0,
    ensures
        joined(list, 8) + list[8].trace == list[0].trace + list[1].trace + list[2].trace
            + list[3].trace + list[4].trace + list[6].trace + list[7].trace + list[8].trace,
{
    let e = Seq::<Emission>::empty();
    assert(joined(list, 1) == e + list[0].trace) by {
        reveal_with_fuel(joined, 2);
    }
    assert(joined(list, 2) == joined(list, 1) + list[1].trace);
    assert(joined(list, 3) == joined(list, 2) + list[2].trace);
    assert(joined(list, 4) == joined(list, 3) + list[3].trace);
    assert(joined(list, 5) == joined(list, 4) + list[4].trace);
    assert(joined(list, 6) == joined(list, 5) + list[5].trace);
    assert(joined(list, 7) == joined(list, 6) + list[6].trace);
    assert(joined(list, 8) == joined(list, 7) + list[7].trace);
    assert(e + list[0].trace =~= list[0].trace);
    assert(joined(list, 6) =~= joined(list, 5));
}

/// What the sections find where they end well.
proof fn lemma_dimensions(tables: Map<Seq<char>, TableModel>)
    ensures
        select_outcome(tables).error is None ==> is_pair(tables, "Select"@, 5, "pre/Select"@, 8),
        public_values_outcome(tables).error is None ==> is_pair(
            tables,
            "PublicValues"@,
            1,
            "pre/PublicValues"@,
            10,
        ),
        base_alu_outcome(tables).error is None ==> is_pair(
            tables,
            "BaseAlu"@,
            12,
            "pre/BaseAlu"@,
            32,
        ),
        ext_alu_outcome(tables).error is None ==> {
            &&& is_pair(
                tables,
                "ExtAlu"@,
                tables["ExtAlu"@].cols,
                "pre/ExtAlu"@,
                tables["pre/ExtAlu"@].cols,
            )
            &&& 8 * tables["ExtAlu"@].cols == 12 * tables["pre/ExtAlu"@].cols
            &&& tables["pre/ExtAlu"@].cols % 8 == 0
        },
        batch_fri_outcome(tables).error is None ==> is_pair(
            tables,
            "BatchFRI"@,
            13,
            "pre/BatchFRI"@,
            6,
        ),
        memory_outcome(tables).error is None ==> {
            &&& tables.contains_key("MemoryVar"@)
            &&& tables.contains_key("pre/MemoryVar"@)
            &&& tables.contains_key("MemoryConst"@)
            &&& tables.contains_key("pre/MemoryConst"@)
            &&& memory_outcome(tables).trace.len() == 0
        },
        exp_reverse_bits_outcome(tables).error is None ==> is_pair(
            tables,
            "ExpReverseBitsLen"@,
            7,
            "pre/ExpReverseBitsLen"@,
            10,
        ),
        poseidon2_outcome(tables, round_constants_model()).error is None ==> is_pair(
            tables,
            "Poseidon2WideDeg3"@,
            313,
            "pre/Poseidon2WideDeg3"@,
            49,
        ),
{
}

/// The first section that fails ends the walk: its error is the error of the walk, and what was emitted
/// until then stays.
pub proof fn law_walk_ends_at_first_error(tables: Map<Seq<char>, TableModel>, k: int)
    requires
        0 <= k < 9,
        forall|j: int| 0 <= j < k ==> (#[trigger] sections(tables)[j]).error is None,
        sections(tables)[k].error is Some,
    ensures
        shrink_outcome(tables).error == sections(tables)[k].error,
        shrink_outcome(tables).trace == joined(sections(tables), (k + 1) as nat),
{
    let rc = round_constants_model();
    let steps = local_steps(tables, rc);
    let all = sections(tables);
    assert forall|j: int| 0 <= j < 8 implies #[trigger] steps[j] == all[j] by {}
    if k < 8 {
        lemma_stops(steps, all, k as nat);
        lemma_stays_stopped(steps, (k + 1) as nat, 8);
    } else {
        lemma_goes_on(steps, all, 8);
    }
}

/// The sections of a walk.
pub open spec fn sections(tables: Map<Seq<char>, TableModel>) -> Seq<Outcome<WalkErrorView>> {
    seq![
        select_outcome(tables),
        public_values_outcome(tables),
        base_alu_outcome(tables),
        ext_alu_outcome(tables),
        batch_fri_outcome(tables),
        memory_outcome(tables),
        exp_reverse_bits_outcome(tables),
        poseidon2_outcome(tables, round_constants_model()),
        permutation_outcome(tables, shrink_chips_model()),
    ]
}

/// The traces of the first `n` outcomes, one behind the other.
pub open spec fn joined(list: Seq<Outcome<WalkErrorView>>, n: nat) -> Seq<Emission>
    decreases n,
{
    if n == 0 {
        Seq::empty()
    } else {
        joined(list, (n - 1) as nat) + list[n - 1].trace
    }
}

proof fn lemma_goes_on(
    steps: Seq<Outcome<WalkErrorView>>,
    all: Seq<Outcome<WalkErrorView>>,
    n: nat,
)
    requires
        n <= steps.len(),
        forall|j: int| 0 <= j < n ==> #[trigger] steps[j] == all[j],
        forall|j: int| 0 <= j < n ==> (#[trigger] all[j]).error is None,
    ensures
        in_sequence(steps, n).error is None,
        in_sequence(steps, n).trace == joined(all, n),
    decreases n,
{
    if n > 0 {
        lemma_goes_on(steps, all, (n - 1) as nat);
        assert(steps[n - 1] == all[n - 1]);
    }
}

proof fn lemma_stops(steps: Seq<Outcome<WalkErrorView>>, all: Seq<Outcome<WalkErrorView>>, k: nat)
    requires
        k < steps.len(),
        forall|j: int| 0 <= j <= k ==> #[trigger] steps[j] == all[j],
        forall|j: int| 0 <= j < k ==> (#[trigger] all[j]).error is None,
        all[k as int].error is Some,
    ensures
        in_sequence(steps, k + 1).error == all[k as int].error,
        in_sequence(steps, k + 1).trace == joined(all, k + 1),
{
    lemma_goes_on(steps, all, k);
    assert(steps[k as int] == all[k as int]);
}

proof fn lemma_stays_stopped(steps: Seq<Outcome<WalkErrorView>>, k: nat, n: nat)
    requires
        k <= n <= steps.len(),
        in_sequence(steps, k).error is Some,
    ensures
        in_sequence(steps, n) == in_sequence(steps, k),
    decreases n,
{
    if k < n {
        lemma_stays_stopped(steps, k, (n - 1) as nat);
    }
}

/// The permutation argument of a chip: on each row one residual for each entry, and one for the running
/// sum. A chip without a table or without interactions has none.
pub proof fn law_chip_walk(
    tables: Map<Seq<char>, TableModel>,
    chip: ChipView,
    alpha: BBExt,
    beta: BBExt,
    i: int,
)
    requires
        chip_outcome(tables, chip, alpha, beta).error is None,
    ensures
        ({
            let o = chip_outcome(tables, chip, alpha, beta);
            let w = chip.permutation_width;
            let skipped = !tables.contains_key(chip.name) || w == 0;
            let n = tables[chip.name].rows;
            &&& skipped ==> o.trace.len() == 0
            &&& !skipped ==> o.trace.len() == n * w
            &&& !skipped && 0 <= i < n ==> forall|k: int|
                0 <= k < w ==> #[trigger] o.trace[i * w + k] == (Emission {
                    section: Section::Permutation,
                    row: Some(i as u32),
                    value: permutation_row(tables, chip, alpha, beta, i)[k],
                })
        }),
{
    let w = chip.permutation_width;
    let n = tables[chip.name].rows;
    if tables.contains_key(chip.name) && w > 0 {
        let steps = permutation_steps(tables, chip, alpha, beta);
        assert forall|j: int| 0 <= j < steps.len() implies (#[trigger] steps[j]).error is None
            && steps[j].trace.len() == w by {
            lemma_no_step_failed(steps, n as nat, j);
        }
        lemma_even_steps(steps, w, n as nat);
        if 0 <= i < n {
            lemma_no_step_failed(steps, n as nat, i);
            let o = chip_outcome(tables, chip, alpha, beta);
            assert forall|k: int| 0 <= k < w implies #[trigger] o.trace[i * w + k] == (Emission {
                section: Section::Permutation,
                row: Some(i as u32),
                value: permutation_row(tables, chip, alpha, beta, i)[k],
            }) by {
                assert(o.trace[i * w + k] == steps[i].trace[k]);
            }
        }
    }
}

/// Where a sequence ends well, so does each of its steps.
pub proof fn lemma_no_step_failed(steps: Seq<Outcome<WalkErrorView>>, n: nat, j: int)
    requires
        n <= steps.len(),
        in_sequence(steps, n).error is None,
        0 <= j < n,
    ensures
        steps[j].error is None,
    decreases n,
{
    if j < n - 1 {
        lemma_no_step_failed(steps, (n - 1) as nat, j);
    }
}

/// The number of residuals of the first `c` chips: the rows of a chip times its width, where the chip has
/// a table.
pub open spec fn residuals_before(
    tables: Map<Seq<char>, TableModel>,
    chips: Seq<ChipView>,
    c: nat,
) -> nat
    decreases c,
{
    if c == 0 {
        0
    } else {
        let chip = chips[c - 1];
        residuals_before(tables, chips, (c - 1) as nat) + if tables.contains_key(chip.name) {
            tables[chip.name].rows as nat * chip.permutation_width
        } else {
            0
        }
    }
}

/// The permutation argument as a whole: two residuals for the challenges, and behind them those of the
/// chips, in the order of the machine.
pub proof fn law_argument_walk(
    tables: Map<Seq<char>, TableModel>,
    chips: Seq<ChipView>,
    alpha: BBExt,
    beta: BBExt,
    c: int,
)
    requires
        argument_outcome(tables, chips, alpha, beta).error is None,
        0 <= c < chips.len(),
    ensures
        ({
            let t = argument_outcome(tables, chips, alpha, beta).trace;
            let from = 2 + residuals_before(tables, chips, c as nat) as int;
            let to = 2 + residuals_before(tables, chips, (c + 1) as nat) as int;
            &&& t.len() == 2 + residuals_before(tables, chips, chips.len())
            &&& t[0] == binding_trace(tables["perm_challenges"@].data[0], alpha, beta)[0]
            &&& t[1] == binding_trace(tables["perm_challenges"@].data[0], alpha, beta)[1]
            &&& chip_outcome(tables, chips[c], alpha, beta).error is None
            &&& from <= to <= t.len()
            &&& t.subrange(from, to) == chip_outcome(tables, chips[c], alpha, beta).trace
        }),
{
    let steps = chip_steps(tables, chips, alpha, beta);
    lemma_chips_walk(tables, chips, alpha, beta, chips.len(), c);
    lemma_no_step_failed(steps, chips.len(), c);
    let t = argument_outcome(tables, chips, alpha, beta).trace;
    let b = binding_trace(tables["perm_challenges"@].data[0], alpha, beta);
    let rest = chips_outcome(tables, chips, alpha, beta).trace;
    assert(t == b + rest);
    let from = residuals_before(tables, chips, c as nat) as int;
    let to = residuals_before(tables, chips, (c + 1) as nat) as int;
    assert(t.subrange(2 + from, 2 + to) =~= rest.subrange(from, to));
}

proof fn lemma_chips_walk(
    tables: Map<Seq<char>, TableModel>,
    chips: Seq<ChipView>,
    alpha: BBExt,
    beta: BBExt,
    n: nat,
    c: int,
)
    requires
        n <= chips.len(),
        in_sequence(chip_steps(tables, chips, alpha, beta), n).error is None,
    ensures
        ({
            let t = in_sequence(chip_steps(tables, chips, alpha, beta), n).trace;
            let from = residuals_before(tables, chips, c as nat) as int;
            let to = residuals_before(tables, chips, (c + 1) as nat) as int;
            &&& t.len() == residuals_before(tables, chips, n)
            &&& 0 <= c < n ==> from <= to <= t.len() && t.subrange(from, to) == chip_outcome(
                tables,
                chips[c],
                alpha,
                beta,
            ).trace
        }),
    decreases n,
{
    let steps = chip_steps(tables, chips, alpha, beta);
    if n > 0 {
        let m = (n - 1) as nat;
        lemma_chips_walk(tables, chips, alpha, beta, m, c);
        lemma_no_step_failed(steps, n, n - 1);
        law_chip_walk(tables, chips[n - 1], alpha, beta, 0);
        let before = in_sequence(steps, m).trace;
        let t = in_sequence(steps, n).trace;
        let last = chip_outcome(tables, chips[n - 1], alpha, beta).trace;
        assert(t == before + last);
        let chip = chips[n - 1];
        if chip.permutation_width == 0 {
            assert(tables[chip.name].rows as nat * chip.permutation_width == 0) by (nonlinear_arith)
                requires
                    chip.permutation_width == 0,
            ;
        }
        assert(last.len() == residuals_before(tables, chips, n) - residuals_before(tables, chips, m));
        let from = residuals_before(tables, chips, c as nat) as int;
        let to = residuals_before(tables, chips, (c + 1) as nat) as int;
        if 0 <= c < m {
            assert(t.subrange(from, to) =~= before.subrange(from, to));
        } else if c == m {
            assert(t.subrange(from, to) =~= last);
        }
    }
}

} // verus!
