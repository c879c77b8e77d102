//! The log of residuals: it holds what was emitted, in order, and the first residual that is not zero.
use vstd::prelude::*;

use crate::laws::law_first_nonzero_is_first;
use crate::residuals::{empty_log, extend, first_nonzero, Emission, LogView};

verus! {

/// A log that is filled from nothing holds the value of each emission at its place, and the first of them
/// that is not zero, with where it came from.
pub proof fn law_log_holds_emissions(trace: Seq<Emission>)
    ensures
        ({
            let log = extend(empty_log(), trace);
            &&& log.residuals.len() == trace.len()
            &&& forall|i: int|
                0 <= i < trace.len() ==> #[trigger] log.residuals[i] == trace[i].value
            &&& match log.first_nonzero {
                Some((at, e)) => {
                    &&& at < trace.len()
                    &&& e == trace[at as int]
                    &&& log.residuals[at as int] != 0
                    &&& forall|i: int| 0 <= i < at ==> #[trigger] log.residuals[i] == 0
                },
                None => forall|i: int| 0 <= i < trace.len() ==> #[trigger] log.residuals[i] == 0,
            }
        }),
{
    law_first_nonzero_is_first(trace, 0);
}

proof fn lemma_first_of_two(a: Seq<Emission>, b: Seq<Emission>, base: nat)
    ensures
        first_nonzero(a + b, base) == (if first_nonzero(a, base) is Some {
            first_nonzero(a, base)
        } else {
            first_nonzero(b, base + a.len())
        }),
    decreases b.len(),
{
    if b.len() == 0 {
        assert(a + b =~= a);
    } else {
        assert((a + b).drop_last() =~= a + b.drop_last());
        lemma_first_of_two(a, b.drop_last(), base);
    }
}

/// Two walks that write to a log one after the other leave what one walk that emits both traces leaves:
/// nothing that was recorded is lost, moved or replaced.
pub proof fn law_log_grows_at_the_end(log: LogView, a: Seq<Emission>, b: Seq<Emission>)
    ensures
        extend(extend(log, a), b) == extend(log, a + b),
        extend(log, a).residuals.len() == log.residuals.len() + a.len(),
        extend(log, a).residuals.take(log.residuals.len() as int) == log.residuals,
        log.first_nonzero is Some ==> extend(log, a).first_nonzero == log.first_nonzero,
{
    lemma_first_of_two(a, b, log.residuals.len());
    let x = extend(extend(log, a), b);
    let y = extend(log, a + b);
    assert(x.residuals =~= y.residuals);
    assert(extend(log, a).residuals.take(log.residuals.len() as int) =~= log.residuals);
}

} // verus!
