//! The residual stream, in the order in which the constraints are walked.

use vstd::prelude::*;

verus! {

/// The part of the constraint system that a residual belongs to.
#[derive(Clone, Copy, Debug, PartialEq, Eq, Structural)]
pub enum Section {
    Select,
    PublicValues,
    BaseAlu,
    ExtAlu,
    BatchFri,
    ExpReverseBitsLen,
    Poseidon2WideDeg3,
    Permutation,
}

/// One residual with its origin. `row` is `None` for a residual that belongs to no table row.
#[derive(Clone, Copy, Debug, PartialEq, Eq, Structural)]
pub struct Emission {
    pub section: Section,
    pub row: Option<u32>,
    pub value: u32,
}

/// A residual that is not zero: its place in the stream and its origin.
#[derive(Clone, Copy, Debug, PartialEq, Eq)]
pub struct NonzeroResidual {
    pub index: usize,
    pub emission: Emission,
}

/// Collects residuals and remembers the first one that is not zero.
#[derive(Debug)]
pub struct ResidualLog {
    pub residuals: Vec<u32>,
    pub first_nonzero: Option<NonzeroResidual>,
}

/// The mathematical reading of a [`ResidualLog`].
#[verifier::ext_equal]
pub struct LogView {
    pub residuals: Seq<u32>,
    pub first_nonzero: Option<(nat, Emission)>,
}

impl View for ResidualLog {
    type V = LogView;

    open spec fn view(&self) -> LogView {
        LogView {
            residuals: self.residuals@,
            first_nonzero: match self.first_nonzero {
                Some(n) => Some((n.index as nat, n.emission)),
                None => None,
            },
        }
    }
}

/// The residual values of a trace of emissions.
pub open spec fn values_of(trace: Seq<Emission>) -> Seq<u32> {
    trace.map_values(|e: Emission| e.value)
}

/// The first emission of the trace that is not zero, with its index counted from `base`.
pub open spec fn first_nonzero(trace: Seq<Emission>, base: nat) -> Option<(nat, Emission)>
    decreases trace.len(),
{
    if trace.len() == 0 {
        None
    } else {
        let before = first_nonzero(trace.drop_last(), base);
        if before is Some {
            before
        } else if trace.last().value != 0 {
            Some(((base + trace.len() - 1) as nat, trace.last()))
        } else {
            None
        }
    }
}

/// The log after a trace of emissions.
pub open spec fn extend(log: LogView, trace: Seq<Emission>) -> LogView {
    LogView {
        residuals: log.residuals + values_of(trace),
        first_nonzero: if log.first_nonzero is Some {
            log.first_nonzero
        } else {
            first_nonzero(trace, log.residuals.len())
        },
    }
}

/// The log that nothing was emitted to.
pub open spec fn empty_log() -> LogView {
    LogView { residuals: Seq::empty(), first_nonzero: None }
}

/// The emissions of one row.
pub open spec fn row_emissions(section: Section, row: Option<u32>, values: Seq<u32>) -> Seq<
    Emission,
> {
    values.map_values(|v: u32| Emission { section, row, value: v })
}

/// What a walk over constraints does: the residuals it emits, and the error it ends with, if any.
#[verifier::ext_equal]
pub struct Outcome<E> {
    pub trace: Seq<Emission>,
    pub error: Option<E>,
}

/// Ends at once with an error.
pub open spec fn fails<E>(e: E) -> Outcome<E> {
    Outcome { trace: Seq::empty(), error: Some(e) }
}

/// Emits a trace and ends well.
pub open spec fn emits<E>(trace: Seq<Emission>) -> Outcome<E> {
    Outcome { trace, error: None }
}

/// `a`, and then `b` unless `a` ended with an error.
pub open spec fn followed_by<E>(a: Outcome<E>, b: Outcome<E>) -> Outcome<E> {
    if a.error is Some {
        a
    } else {
        Outcome { trace: a.trace + b.trace, error: b.error }
    }
}

/// The first `n` steps one after the other, up to the first that ends with an error.
pub open spec fn in_sequence<E>(steps: Seq<Outcome<E>>, n: nat) -> Outcome<E>
    decreases n,
{
    if n == 0 {
        emits(Seq::empty())
    } else {
        followed_by(in_sequence(steps, (n - 1) as nat), steps[n - 1])
    }
}

pub proof fn lemma_extend_empty(log: LogView)
    ensures
        extend(log, Seq::empty()) == log,
{
    assert(extend(log, Seq::empty()) =~= log);
}

pub proof fn lemma_first_nonzero_concat(a: Seq<Emission>, b: Seq<Emission>, base: nat)
    ensures
        first_nonzero(a + b, base) == (if first_nonzero(a, base) is Some {
            first_nonzero(a, base)
        } else {
            first_nonzero(b, base + a.len())
        }),
    decreases b.len(),
{
    if b.len() == 0 {
        assert(a + b =~= a);
    } else {
        lemma_first_nonzero_concat(a, b.drop_last(), base);
        assert((a + b).drop_last() =~= a + b.drop_last());
        assert((a + b).last() == b.last());
    }
}

/// Emitting two traces one after the other is emitting their concatenation.
pub proof fn lemma_extend_concat(log: LogView, a: Seq<Emission>, b: Seq<Emission>)
    ensures
        extend(extend(log, a), b) == extend(log, a + b),
{
    lemma_first_nonzero_concat(a, b, log.residuals.len());
    assert(values_of(a + b) =~= values_of(a) + values_of(b));
    assert(extend(extend(log, a), b) =~= extend(log, a + b));
}

impl ResidualLog {
    pub fn new() -> (r: ResidualLog)
        ensures
            r@ == empty_log(),
    {
        let r = ResidualLog { residuals: Vec::new(), first_nonzero: None };
        assert(r@ =~= empty_log());
        r
    }

    /// Emits one residual.
    pub fn emit(&mut self, section: Section, row: Option<u32>, value: u32)
        ensures
            final(self)@ == extend(old(self)@, seq![Emission { section, row, value }]),
    {
        let ghost e = Emission { section, row, value };
        let ghost before = self@;
        if value != 0 && self.first_nonzero.is_none() {
            let emission = Emission { section, row, value };
            self.first_nonzero = Some(NonzeroResidual { index: self.residuals.len(), emission });
        }
        self.residuals.push(value);
        proof {
            let t = seq![e];
            assert(t.drop_last() =~= Seq::<Emission>::empty());
            assert(first_nonzero(t.drop_last(), before.residuals.len()) is None);
            assert(values_of(t) =~= seq![value]);
            assert(self@ =~= extend(before, t));
        }
    }

    /// Emits the residuals of one row, in order.
    pub fn emit_row(&mut self, section: Section, row: Option<u32>, values: &[u32])
        ensures
            final(self)@ == extend(old(self)@, row_emissions(section, row, values@)),
    {
        let ghost start = self@;
        let ghost all = row_emissions(section, row, values@);
        let mut i: usize = 0;
        proof {
            lemma_extend_empty(start);
            assert(all.take(0) =~= Seq::<Emission>::empty());
        }
        while i < values.len()
            invariant
                i <= values@.len(),
                all == row_emissions(section, row, values@),
                self@ == extend(start, all.take(i as int)),
            decreases values@.len() - i,
        {
            let ghost before = self@;
            self.emit(section, row, values[i]);
            proof {
                let e = Emission { section, row, value: values@[i as int] };
                lemma_extend_concat(start, all.take(i as int), seq![e]);
                assert(all.take(i as int) + seq![e] =~= all.take(i + 1));
            }
            i += 1;
        }
        assert(all.take(values@.len() as int) =~= all);
    }
}

} // verus!
