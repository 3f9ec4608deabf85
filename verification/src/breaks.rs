//! Break-job bookkeeping: recognising break jobs, locking them to their
//! vehicle during activity evaluation, demoting unassigned breaks, and
//! collecting orphan breaks that ruin left behind in tours.

use vstd::prelude::*;

use crate::model::Activity;
use crate::model::JobDef;
use crate::model::Problem;
use crate::model::Route;
use crate::model::SingleJob;
use crate::model::SolutionContext;
use crate::model::wf_problem;
use crate::model::wf_solution;

verus! {

/// A hard activity constraint violation: the reason code, and whether the
/// whole insertion attempt should stop.
#[derive(Clone, Copy, PartialEq, Eq, Structural)]
pub struct ActivityConstraintViolation {
    pub code: i32,
    pub stopped: bool,
}

/// The activity neighborhood an insertion is evaluated against: the
/// previous activity, the candidate, and what follows it, if anything.
pub struct ActivityContext {
    pub prev: Activity,
    pub target: Activity,
    pub next: Option<Activity>,
}

/// Whether the activity is bound to a single break job.
pub open spec fn is_break_activity(p: Problem, a: Activity) -> bool {
    &&& a.job matches Some(j)
    &&& a.job matches Some(j) ==> j < p.jobs@.len() && (p.jobs@[j as int] matches JobDef::Single(s)
        && s.is_break)
}

/// Whether the job is a single job carrying a vehicle id, which marks a
/// break wherever the unassigned pool is cleaned.
pub open spec fn is_demotable_break(p: Problem, j: usize) -> bool {
    &&& j < p.jobs@.len()
    &&& p.jobs@[j as int] matches JobDef::Single(s) && s.vehicle_id is Some
}

/// Whether a break job may stay required: some route is driven by the
/// vehicle the break belongs to, and the required pool is not empty.
pub open spec fn is_required_job_spec(p: Problem, s: SolutionContext, j: usize) -> bool {
    match p.jobs@[j as int] {
        JobDef::Single(single) => {
            if single.is_break {
                s.required@.len() > 0 && exists|r: int|
                    0 <= r < s.routes@.len() && (#[trigger] s.routes@[r]).vehicle
                        == single.vehicle_id->0
            } else {
                true
            }
        },
        JobDef::Multi(_) => true,
    }
}

/// Whether the activity at position `i` of the tour is an orphan break:
/// a located stop of an unlocated break job, reached from a different
/// location than the previous activity's.
pub open spec fn orphan_break_at(p: Problem, t: crate::model::Tour, i: int) -> bool {
    &&& 0 <= i < t.activities@.len()
    &&& is_break_activity(p, t.activities@[i])
    &&& (if i == 0 {
        0int
    } else {
        t.activities@[i - 1].location as int
    }) != t.activities@[i].location as int
    &&& (t.activities@[i].job matches Some(j) && (p.jobs@[j as int] matches JobDef::Single(s)
        && s.places@.len() > 0 && s.places@[0].location is None))
}

/// Whether some tour of the solution holds an orphan break of job `j`.
pub open spec fn orphan_break_somewhere(p: Problem, s: SolutionContext, j: usize) -> bool {
    exists|r: int, i: int|
        #![trigger orphan_break_at(p, s.routes@[r].tour, i)]
        0 <= r < s.routes@.len() && orphan_break_at(p, s.routes@[r].tour, i)
            && s.routes@[r].tour.activities@[i].job == Some(j)
}

/// Checks whether the single job is typed as a break.
pub fn is_break_job(job: &SingleJob) -> (r: bool)
    ensures
        r == job.is_break,
{
    job.is_break
}

/// The vehicle id a break is locked to, if it carries one.
pub fn get_vehicle_id_from_break(job: &SingleJob) -> (r: Option<usize>)
    ensures
        r == job.vehicle_id,
{
    job.vehicle_id
}

/// The vehicle id of a route.
pub fn get_vehicle_id_from_ctx(ctx: &Route) -> (r: usize)
    ensures
        r == ctx.vehicle,
{
    ctx.vehicle
}

/// The break job bound to the activity, if it is bound to one.
pub fn as_break_job(problem: &Problem, activity: &Activity) -> (r: Option<usize>)
    requires
        wf_problem(*problem),
        activity.job matches Some(j) ==> j < problem.jobs@.len(),
    ensures
        r is Some <==> is_break_activity(*problem, *activity),
        r matches Some(j) ==> activity.job == Some(j),
{
    match activity.job {
        Some(j) => {
            match &problem.jobs[j] {
                JobDef::Single(s) => {
                    if s.is_break {
                        Some(j)
                    } else {
                        None
                    }
                },
                JobDef::Multi(_) => None,
            }
        },
        None => None,
    }
}

/// A break is required only while its vehicle still drives a route and
/// jobs remain pending; all other jobs are always required.
pub fn is_required_job(problem: &Problem, ctx: &SolutionContext, job: usize) -> (r: bool)
    requires
        wf_problem(*problem),
        wf_solution(*ctx, *problem),
        job < problem.jobs@.len(),
        (problem.jobs@[job as int] matches JobDef::Single(s) && s.is_break) ==> (
        problem.jobs@[job as int] matches JobDef::Single(s2) && s2.vehicle_id is Some),
    ensures
        r == is_required_job_spec(*problem, *ctx, job),
{
    match &problem.jobs[job] {
        JobDef::Single(s) => {
            if s.is_break {
                let vehicle_id = match s.vehicle_id {
                    Some(v) => v,
                    None => {
                        proof {
                            assert(false);
                        }
                        0
                    },
                };
                if ctx.required.len() == 0 {
                    return false;
                }
                let mut r: usize = 0;
                while r < ctx.routes.len()
                    invariant
                        r <= ctx.routes@.len(),
                        job < problem.jobs@.len(),
                        problem.jobs@[job as int] matches JobDef::Single(s) && s.is_break
                            && s.vehicle_id == Some(vehicle_id),
                        ctx.required@.len() > 0,
                        forall|k: int| 0 <= k < r ==> (#[trigger] ctx.routes@[k]).vehicle
                            != vehicle_id,
                    decreases ctx.routes@.len() - r,
                {
                    if ctx.routes[r].vehicle == vehicle_id {
                        proof {
                            assert(0 <= r < ctx.routes@.len() && (
                            #[trigger] ctx.routes@[r as int]).vehicle == vehicle_id);
                        }
                        return true;
                    }
                    r = r + 1;
                }
                false
            } else {
                true
            }
        },
        JobDef::Multi(_) => true,
    }
}

/// The break module: recognises break jobs and carries the constraint
/// configuration for them.
pub struct BreakModule {
    /// Reason code used when a break cannot stand at a position.
    pub code: i32,
    /// Extra cost charged for scheduling a break, if any.
    pub extra_break_cost: Option<i64>,
    /// Whether unassigned breaks are demoted rather than reported.
    pub demote_breaks_from_unassigned: bool,
}

impl BreakModule {
    pub fn new(code: i32, extra_break_cost: Option<i64>, demote_breaks_from_unassigned: bool) -> (r:
        BreakModule)
        ensures
            r == (BreakModule { code, extra_break_cost, demote_breaks_from_unassigned }),
    {
        BreakModule { code, extra_break_cost, demote_breaks_from_unassigned }
    }
}

/// The hard activity constraint that keeps breaks next to work and on
/// their own vehicle.
pub struct BreakHardActivityConstraint {
    pub code: i32,
}

impl BreakHardActivityConstraint {
    /// The violation this constraint reports: its code, without stopping
    /// the whole insertion.
    pub fn stop(&self) -> (r: Option<ActivityConstraintViolation>)
        ensures
            r == Some(ActivityConstraintViolation { code: self.code, stopped: false }),
    {
        Some(ActivityConstraintViolation { code: self.code, stopped: false })
    }

    /// Evaluates a candidate activity: a break may not follow the
    /// departure directly, and may only ride on the vehicle it belongs to.
    pub fn evaluate_activity(
        &self,
        problem: &Problem,
        route_ctx: &Route,
        activity_ctx: &ActivityContext,
    ) -> (r: Option<ActivityConstraintViolation>)
        requires
            wf_problem(*problem),
            activity_ctx.target.job matches Some(j) ==> j < problem.jobs@.len(),
        ensures
            !is_break_activity(*problem, activity_ctx.target) ==> r is None,
            is_break_activity(*problem, activity_ctx.target) && activity_ctx.prev.job is None
                ==> r == Some(ActivityConstraintViolation { code: self.code, stopped: false }),
            is_break_activity(*problem, activity_ctx.target) && activity_ctx.prev.job is Some
                ==> {
                let j = activity_ctx.target.job->0;
                let matches_vehicle = (problem.jobs@[j as int] matches JobDef::Single(s)
                    && s.vehicle_id == Some(route_ctx.vehicle));
                if matches_vehicle {
                    r is None
                } else {
                    r == Some(ActivityConstraintViolation { code: self.code, stopped: false })
                }
            },
    {
        match as_break_job(problem, &activity_ctx.target) {
            Some(break_job) => {
                if activity_ctx.prev.job.is_none() {
                    return self.stop();
                }
                let is_correct_vehicle = match &problem.jobs[break_job] {
                    JobDef::Single(s) => {
                        match s.vehicle_id {
                            Some(v) => v == route_ctx.vehicle,
                            None => false,
                        }
                    },
                    JobDef::Multi(_) => false,
                };
                if !is_correct_vehicle {
                    return self.stop();
                }
                None
            },
            None => None,
        }
    }
}

/// Removes every break from the unassigned pool, moving it to the ignored
/// pool instead: a break outside its vehicle's window is not a failure.
pub fn demote_unassigned_breaks(problem: &Problem, ctx: &mut SolutionContext)
    requires
        wf_problem(*problem),
        forall|k: int|
            0 <= k < old(ctx).unassigned@.len() ==> (#[trigger] old(ctx).unassigned@[k]).0
                < problem.jobs@.len(),
    ensures
        final(ctx).routes@ == old(ctx).routes@,
        final(ctx).required@ == old(ctx).required@,
        final(ctx).locked@ == old(ctx).locked@,
        forall|x: int|
            0 <= x < final(ctx).unassigned@.len() ==> old(ctx).unassigned@.contains(
                #[trigger] final(ctx).unassigned@[x],
            ) && !is_demotable_break(*problem, final(ctx).unassigned@[x].0),
        forall|x: int|
            0 <= x < old(ctx).unassigned@.len() && !is_demotable_break(
                *problem,
                (#[trigger] old(ctx).unassigned@[x]).0,
            ) ==> final(ctx).unassigned@.contains(old(ctx).unassigned@[x]),
        exists|demoted: Seq<usize>|
            {
                &&& final(ctx).ignored@ == old(ctx).ignored@ + demoted
                &&& forall|x: int|
                    0 <= x < demoted.len() ==> is_demotable_break(*problem, #[trigger] demoted[x])
                        && exists|y: int|
                        0 <= y < old(ctx).unassigned@.len()
                            && (#[trigger] old(ctx).unassigned@[y]).0 == demoted[x]
                &&& forall|y: int|
                    0 <= y < old(ctx).unassigned@.len() && is_demotable_break(
                        *problem,
                        (#[trigger] old(ctx).unassigned@[y]).0,
                    ) ==> demoted.contains(old(ctx).unassigned@[y].0)
            },
{
    let ghost old_un = ctx.unassigned@;
    let mut kept: Vec<(usize, i32)> = Vec::new();
    let mut demo: Vec<usize> = Vec::new();
    let mut k: usize = 0;
    while k < ctx.unassigned.len()
        invariant
            k <= ctx.unassigned@.len(),
            ctx.unassigned@ == old_un,
            wf_problem(*problem),
            forall|x: int|
                0 <= x < old_un.len() ==> (#[trigger] old_un[x]).0 < problem.jobs@.len(),
            forall|x: int|
                0 <= x < kept@.len() ==> old_un.contains(#[trigger] kept@[x])
                    && !is_demotable_break(*problem, kept@[x].0),
            forall|x: int|
                0 <= x < k && !is_demotable_break(*problem, (#[trigger] old_un[x]).0)
                    ==> kept@.contains(old_un[x]),
            forall|x: int|
                0 <= x < demo@.len() ==> is_demotable_break(*problem, #[trigger] demo@[x])
                    && exists|y: int|
                    0 <= y < old_un.len() && (#[trigger] old_un[y]).0 == demo@[x],
            forall|x: int|
                0 <= x < k && is_demotable_break(*problem, (#[trigger] old_un[x]).0)
                    ==> demo@.contains(old_un[x].0),
        decreases ctx.unassigned@.len() - k,
    {
        let entry = ctx.unassigned[k];
        let demote = match &problem.jobs[entry.0] {
            JobDef::Single(s) => s.vehicle_id.is_some(),
            JobDef::Multi(_) => false,
        };
        let ghost pre_kept = kept@;
        let ghost pre_demo = demo@;
        if demote {
            demo.push(entry.0);
        } else {
            kept.push(entry);
        }
        proof {
            assert(old_un[k as int] == entry);
            assert(old_un.contains(entry));
            assert forall|x: int|
                0 <= x < k + 1 && !is_demotable_break(*problem, (#[trigger] old_un[x]).0)
                    implies kept@.contains(old_un[x]) by {
                if x < k {
                    assert(pre_kept.contains(old_un[x]));
                    if !demote {
                        crate::model::lemma_push_contains(pre_kept, entry, old_un[x]);
                    }
                } else {
                    assert(!demote);
                    crate::model::lemma_push_contains(pre_kept, entry, entry);
                }
            }
            assert forall|x: int|
                0 <= x < k + 1 && is_demotable_break(*problem, (#[trigger] old_un[x]).0)
                    implies demo@.contains(old_un[x].0) by {
                if x < k {
                    assert(pre_demo.contains(old_un[x].0));
                    if demote {
                        crate::model::lemma_push_contains(pre_demo, entry.0, old_un[x].0);
                    }
                } else {
                    assert(demote);
                    crate::model::lemma_push_contains(pre_demo, entry.0, entry.0);
                }
            }
            if !demote {
                assert forall|x: int|
                    0 <= x < kept@.len() implies old_un.contains(#[trigger] kept@[x])
                        && !is_demotable_break(*problem, kept@[x].0) by {
                    if x < pre_kept.len() {
                        assert(kept@[x] == pre_kept[x]);
                    } else {
                        assert(kept@[x] == entry);
                    }
                }
            }
            if demote {
                assert forall|x: int|
                    0 <= x < demo@.len() implies is_demotable_break(
                    *problem,
                    #[trigger] demo@[x],
                ) && exists|y: int|
                    0 <= y < old_un.len() && (#[trigger] old_un[y]).0 == demo@[x] by {
                    if x < pre_demo.len() {
                        assert(demo@[x] == pre_demo[x]);
                    } else {
                        assert(demo@[x] == entry.0);
                        assert((old_un[k as int]).0 == demo@[x]);
                    }
                }
            }
        }
        k = k + 1;
    }
    ctx.unassigned = kept;
    let ghost old_ig = ctx.ignored@;
    let mut f: usize = 0;
    while f < demo.len()
        invariant
            f <= demo@.len(),
            ctx.ignored@ == old_ig + demo@.take(f as int),
            ctx.unassigned@ == kept@,
            ctx.routes@ == old(ctx).routes@,
            ctx.required@ == old(ctx).required@,
            ctx.locked@ == old(ctx).locked@,
        decreases demo@.len() - f,
    {
        let j = demo[f];
        proof {
            assert(demo@.take(f as int + 1) =~= demo@.take(f as int).push(demo@[f as int]));
        }
        ctx.ignored.push(j);
        f = f + 1;
    }
    proof {
        assert(demo@.take(demo@.len() as int) =~= demo@);
        assert(ctx.ignored@ == old_ig + demo@);
    }
}

/// Collects breaks whose stop has a location although the break job has
/// none of its own and the tour reaches them from elsewhere: left-overs of
/// ruin, handed back to the required pool to be served separately.
#[verifier::rlimit(100)]
pub fn remove_orphan_breaks(problem: &Problem, ctx: &mut SolutionContext)
    requires
        wf_problem(*problem),
        wf_solution(*old(ctx), *problem),
        forall|j: int|
            0 <= j < problem.jobs@.len() ==> (((#[trigger] problem.jobs@[j])
                matches JobDef::Single(s) && s.is_break) ==> (problem.jobs@[j]
                matches JobDef::Single(s2) && s2.places@.len() == 1)),
    ensures
        final(ctx).routes@ == old(ctx).routes@,
        final(ctx).locked@ == old(ctx).locked@,
        final(ctx).unassigned@ == old(ctx).unassigned@,
        final(ctx).ignored@ == old(ctx).ignored@,
        exists|orphans: Seq<usize>|
            {
                &&& final(ctx).required@ == old(ctx).required@ + orphans
                &&& forall|j: usize|
                    orphans.contains(j) <==> orphan_break_somewhere(*problem, *old(ctx), j)
            },
{
    let ghost old_ctx = *ctx;
    let mut found: Vec<usize> = Vec::new();
    let mut r: usize = 0;
    while r < ctx.routes.len()
        invariant
            r <= ctx.routes@.len(),
            *ctx == old_ctx,
            wf_problem(*problem),
            wf_solution(old_ctx, *problem),
            forall|j: usize|
                found@.contains(j) <==> exists|rx: int, i: int|
                    #![trigger orphan_break_at(*problem, old_ctx.routes@[rx].tour, i)]
                    0 <= rx < r && orphan_break_at(*problem, old_ctx.routes@[rx].tour, i)
                        && old_ctx.routes@[rx].tour.activities@[i].job == Some(j),
        decreases ctx.routes@.len() - r,
    {
        let tour_len = ctx.routes[r].tour.activities.len();
        let mut prev: usize = 0;
        let mut i: usize = 0;
        while i < tour_len
            invariant
                i <= tour_len,
                r < ctx.routes@.len(),
                *ctx == old_ctx,
                tour_len == ctx.routes@[r as int].tour.activities@.len(),
                wf_problem(*problem),
                wf_solution(old_ctx, *problem),
                prev as int == (if i == 0 {
                    0int
                } else {
                    old_ctx.routes@[r as int].tour.activities@[i - 1].location as int
                }),
                forall|j: usize|
                    found@.contains(j) <==> (exists|rx: int, ix: int|
                        #![trigger orphan_break_at(*problem, old_ctx.routes@[rx].tour, ix)]
                        0 <= rx < r && orphan_break_at(*problem, old_ctx.routes@[rx].tour, ix)
                            && old_ctx.routes@[rx].tour.activities@[ix].job == Some(j)) || (exists|
                        ix: int,
                    |
                        0 <= ix < i && orphan_break_at(
                            *problem,
                            old_ctx.routes@[r as int].tour,
                            ix,
                        ) && (#[trigger] old_ctx.routes@[r as int].tour.activities@[ix]).job
                            == Some(j)),
            decreases tour_len - i,
        {
            let a = ctx.routes[r].tour.activities[i];
            let current = a.location;
            let ghost pre_found = found@;
            match as_break_job(problem, &a) {
                Some(bj) => {
                    let is_unlocated = match &problem.jobs[bj] {
                        JobDef::Single(s) => {
                            if s.places.len() == 0 {
                                false
                            } else {
                                s.places[0].location.is_none()
                            }
                        },
                        JobDef::Multi(_) => false,
                    };
                    if prev != current && is_unlocated {
                        found.push(bj);
                        proof {
                            assert(orphan_break_at(
                                *problem,
                                old_ctx.routes@[r as int].tour,
                                i as int,
                            ));
                        }
                    }
                },
                None => {},
            }
            proof {
                assert forall|j: usize|
                    found@.contains(j) <==> ((exists|rx: int, ix: int|
                        #![trigger orphan_break_at(*problem, old_ctx.routes@[rx].tour, ix)]
                        0 <= rx < r && orphan_break_at(*problem, old_ctx.routes@[rx].tour, ix)
                            && old_ctx.routes@[rx].tour.activities@[ix].job == Some(j)) || (exists|
                        ix: int,
                    |
                        0 <= ix < i + 1 && orphan_break_at(
                            *problem,
                            old_ctx.routes@[r as int].tour,
                            ix,
                        ) && (#[trigger] old_ctx.routes@[r as int].tour.activities@[ix]).job
                            == Some(j))) by {
                    if found@ != pre_found {
                        let bj = found@.last();
                        crate::model::lemma_push_contains(pre_found, bj, j);
                    }
                    if !found@.contains(j) {
                        if exists|ix: int|
                            0 <= ix < i + 1 && orphan_break_at(
                                *problem,
                                old_ctx.routes@[r as int].tour,
                                ix,
                            ) && (old_ctx.routes@[r as int].tour.activities@[ix]).job == Some(
                                j,
                            ) {
                            let ix = choose|ix: int|
                                0 <= ix < i + 1 && orphan_break_at(
                                    *problem,
                                    old_ctx.routes@[r as int].tour,
                                    ix,
                                ) && (old_ctx.routes@[r as int].tour.activities@[ix]).job == Some(
                                    j,
                                );
                            assert(ix < i);
                        }
                    }
                }
            }
            prev = current;
            i = i + 1;
        }
        r = r + 1;
    }
    let ghost pre_req = ctx.required@;
    let mut f: usize = 0;
    while f < found.len()
        invariant
            f <= found@.len(),
            ctx.routes@ == old_ctx.routes@,
            ctx.locked@ == old_ctx.locked@,
            ctx.unassigned@ == old_ctx.unassigned@,
            ctx.ignored@ == old_ctx.ignored@,
            pre_req == old_ctx.required@,
            ctx.required@ == pre_req + found@.take(f as int),
        decreases found@.len() - f,
    {
        let j = found[f];
        proof {
            assert(found@.take(f as int + 1) =~= found@.take(f as int).push(found@[f as int]));
        }
        ctx.required.push(j);
        f = f + 1;
    }
    proof {
        assert(found@.take(found@.len() as int) =~= found@);
        assert(ctx.required@ == old_ctx.required@ + found@);
        let olen = old_ctx.required@.len() as int;
        assert(old_ctx == *old(ctx));
        assert forall|j: usize|
            found@.contains(j) <==> orphan_break_somewhere(*problem, *old(ctx), j) by {}
    }
}

} // verus!
