//! The shared ruin contract: the closed set of ruin strategies behind one
//! dispatch interface, and the laws every strategy obeys.

use vstd::prelude::*;

use crate::adjusted_string_removal::AdjustedStringRemoval;
use crate::adjusted_string_removal::wf_asr;
use crate::model::InsertionContext;
use crate::model::Problem;
use crate::model::SolutionContext;
use crate::model::assigned_in;
use crate::model::removed_of;
use crate::model::ruin_outcome;
use crate::model::tour_has_job;
use crate::model::wf_insertion;
use crate::model::wf_solution;
use crate::worst_jobs_removal::WorstJobRemoval;
use crate::worst_jobs_removal::savings_ready;
use crate::worst_jobs_removal::wf_worst;

verus! {

/// The closed set of ruin strategies the search loop can dispatch over.
pub enum RuinStrategy {
    AdjustedStringRemoval(AdjustedStringRemoval),
    WorstJobRemoval(WorstJobRemoval),
}

pub open spec fn wf_strategy(s: RuinStrategy) -> bool {
    match s {
        RuinStrategy::AdjustedStringRemoval(a) => wf_asr(a),
        RuinStrategy::WorstJobRemoval(w) => wf_worst(w),
    }
}

/// What the strategy demands of the solution: worst-job removal reads the
/// job of each interior activity.
pub open spec fn strategy_ready(s: RuinStrategy, sol: SolutionContext) -> bool {
    match s {
        RuinStrategy::AdjustedStringRemoval(_) => true,
        RuinStrategy::WorstJobRemoval(_) => savings_ready(sol),
    }
}

/// Inputs on which the selected strategy must remove something.
pub open spec fn strategy_forced(s: RuinStrategy, sol: SolutionContext) -> bool {
    match s {
        RuinStrategy::AdjustedStringRemoval(_) => crate::adjusted_string_removal::asr_forced(sol),
        RuinStrategy::WorstJobRemoval(w) => crate::worst_jobs_removal::worst_forced(w, sol),
    }
}

impl RuinStrategy {
    /// Runs the selected strategy on the solution: the uniform contract the
    /// outer search loop composes ruin calls through.
    pub fn run(&self, insertion_ctx: InsertionContext) -> (r: InsertionContext)
        requires
            wf_strategy(*self),
            wf_insertion(insertion_ctx),
            strategy_ready(*self, insertion_ctx.solution),
        ensures
            wf_insertion(r),
            r.problem == insertion_ctx.problem,
            ruin_outcome(
                insertion_ctx.solution,
                r.solution,
                removed_of(insertion_ctx.solution, r.solution),
            ),
            strategy_forced(*self, insertion_ctx.solution) ==> removed_of(
                insertion_ctx.solution,
                r.solution,
            ).len() >= 1,
    {
        match self {
            RuinStrategy::AdjustedStringRemoval(a) => a.run(insertion_ctx),
            RuinStrategy::WorstJobRemoval(w) => w.run(insertion_ctx),
        }
    }
}

/// Law of locked-job preservation: a ruin call removes no locked job, and
/// every locked job keeps exactly the tour membership it had before.
pub proof fn law_locked_preserved(
    old_s: SolutionContext,
    new_s: SolutionContext,
    removed: Seq<usize>,
)
    requires
        ruin_outcome(old_s, new_s, removed),
    ensures
        forall|k: int| 0 <= k < removed.len() ==> !old_s.locked@.contains(#[trigger] removed[k]),
        forall|j: usize, r: int|
            #![trigger old_s.locked@.contains(j), tour_has_job(new_s.routes@[r].tour, j)]
            old_s.locked@.contains(j) && 0 <= r < new_s.routes@.len() ==> tour_has_job(
                new_s.routes@[r].tour,
                j,
            ) == tour_has_job(old_s.routes@[r].tour, j),
{
    assert forall|j: usize, r: int|
        old_s.locked@.contains(j) && 0 <= r < new_s.routes@.len() implies tour_has_job(
        new_s.routes@[r].tour,
        j,
    ) == tour_has_job(old_s.routes@[r].tour, j) by {
        if removed.contains(j) {
            let k = choose|k: int| 0 <= k < removed.len() && removed[k] == j;
            assert(!old_s.locked@.contains(removed[k]));
        }
    }
}

/// Law of pool conservation: the required pool grows by exactly the
/// removed jobs; each removed job is absent from every tour afterwards and
/// stands at exactly one position of the new required pool.
pub proof fn law_pool_conservation(
    old_s: SolutionContext,
    new_s: SolutionContext,
    removed: Seq<usize>,
    p: Problem,
)
    requires
        wf_solution(old_s, p),
        ruin_outcome(old_s, new_s, removed),
    ensures
        new_s.required@.len() == old_s.required@.len() + removed.len(),
        forall|k: int, r: int|
            0 <= k < removed.len() && 0 <= r < new_s.routes@.len() ==> !tour_has_job(
                #[trigger] new_s.routes@[r].tour,
                #[trigger] removed[k],
            ),
        forall|k: int, i: int|
            #![trigger new_s.required@[i], removed[k]]
            0 <= k < removed.len() && 0 <= i < new_s.required@.len()
                ==> (new_s.required@[i] == removed[k] <==> i == old_s.required@.len() + k),
{
    assert forall|k: int, r: int|
        0 <= k < removed.len() && 0 <= r < new_s.routes@.len() implies !tour_has_job(
        #[trigger] new_s.routes@[r].tour,
        #[trigger] removed[k],
    ) by {
        assert(removed.contains(removed[k]));
    }
    assert forall|k: int, i: int|
        #![trigger new_s.required@[i], removed[k]]
        0 <= k < removed.len() && 0 <= i < new_s.required@.len() implies (new_s.required@[i]
        == removed[k] <==> i == old_s.required@.len() + k) by {
        let olen = old_s.required@.len() as int;
        assert(assigned_in(old_s, removed[k]));
        if i < olen {
            assert(new_s.required@[i] == old_s.required@[i]);
            if new_s.required@[i] == removed[k] {
                assert(!assigned_in(old_s, old_s.required@[i]));
            }
        } else {
            assert(new_s.required@[i] == removed[i - olen]);
            if new_s.required@[i] == removed[k] && i - olen != k {
                assert(removed[i - olen] != removed[k]);
            }
        }
    }
}

} // verus!
