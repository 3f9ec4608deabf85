//! Solution model for the ruin strategies.
//!
//! Jobs, actors, vehicles, profiles and locations are identified by stable
//! integer ids into arenas owned by the problem, so identity comparison is
//! index comparison.  A tour is an ordered sequence of activities; position 0
//! is always the start activity, which carries no job and is never removed.

use vstd::prelude::*;

verus! {

/// One stop of a tour.  `job` is the bound job id, `None` for the start
/// activity and for plain waypoints.  `single_idx` names which sub-job of a
/// multi job the stop serves (0 for singles).
#[derive(Clone, Copy)]
pub struct Activity {
    pub job: Option<usize>,
    pub single_idx: usize,
    pub location: usize,
    pub duration: u64,
    pub time_start: u64,
    pub time_end: u64,
}

/// An ordered sequence of activities belonging to one route.
pub struct Tour {
    pub activities: Vec<Activity>,
}

/// A tour is well formed when it has a start activity at position 0 that
/// carries no job, and no job is bound at two of its positions.
pub open spec fn wf_tour(t: Tour) -> bool {
    &&& t.activities@.len() >= 1
    &&& t.activities@[0].job is None
    &&& forall|i: int, k: int|
        #![trigger t.activities@[i].job, t.activities@[k].job]
        0 <= i < k < t.activities@.len() && t.activities@[i].job is Some
            ==> t.activities@[i].job != t.activities@[k].job
}

/// Whether job `j` is bound at some position of the tour.
pub open spec fn tour_has_job(t: Tour, j: usize) -> bool {
    exists|i: int| 0 <= i < t.activities@.len() && t.activities@[i].job == Some(j)
}

/// Whether any position of the tour binds a job.
pub open spec fn tour_has_some_job(t: Tour) -> bool {
    exists|i: int| 0 <= i < t.activities@.len() && t.activities@[i].job is Some
}

impl Tour {
    /// Number of activities after the start activity.
    pub fn activity_count(&self) -> (r: usize)
        requires
            wf_tour(*self),
        ensures
            r == self.activities@.len() - 1,
    {
        self.activities.len() - 1
    }

    /// The job bound at position `i`, if any.
    pub fn get(&self, i: usize) -> (r: Option<usize>)
        requires
            i < self.activities@.len(),
        ensures
            r == self.activities@[i as int].job,
    {
        self.activities[i].job
    }

    /// Position of the activity bound to `job`, scanning from the front.
    pub fn index(&self, job: usize) -> (r: Option<usize>)
        ensures
            match r {
                Some(i) => {
                    &&& i < self.activities@.len()
                    &&& self.activities@[i as int].job == Some(job)
                    &&& forall|k: int| 0 <= k < i ==> self.activities@[k].job != Some(job)
                },
                None => !tour_has_job(*self, job),
            },
    {
        let mut i: usize = 0;
        while i < self.activities.len()
            invariant
                i <= self.activities@.len(),
                forall|k: int| 0 <= k < i ==> self.activities@[k].job != Some(job),
            decreases self.activities@.len() - i,
        {
            match self.activities[i].job {
                Some(j) => {
                    if j == job {
                        return Some(i);
                    }
                },
                None => {},
            }
            i = i + 1;
        }
        None
    }

    /// Whether some position after the start binds a job.
    pub fn has_jobs(&self) -> (r: bool)
        ensures
            r == tour_has_some_job(*self),
    {
        let mut i: usize = 0;
        while i < self.activities.len()
            invariant
                i <= self.activities@.len(),
                forall|k: int| 0 <= k < i ==> !(#[trigger] self.activities@[k].job is Some),
            decreases self.activities@.len() - i,
        {
            if self.activities[i].job.is_some() {
                return true;
            }
            i = i + 1;
        }
        false
    }

    /// Detaches the activity bound to `job`, shifting later activities left.
    /// Returns whether anything was removed.
    pub fn remove(&mut self, job: usize) -> (r: bool)
        requires
            wf_tour(*old(self)),
        ensures
            r == tour_has_job(*old(self), job),
            wf_tour(*final(self)),
            final(self).activities@[0] == old(self).activities@[0],
            !tour_has_job(*final(self), job),
            forall|j2: usize|
                j2 != job ==> tour_has_job(*final(self), j2) == tour_has_job(*old(self), j2),
            r ==> final(self).activities@.len() == old(self).activities@.len() - 1,
            !r ==> final(self).activities@ == old(self).activities@,
            forall|i: int|
                0 <= i < final(self).activities@.len() ==> exists|k: int|
                    0 <= k < old(self).activities@.len()
                        && #[trigger] final(self).activities@[i] == old(self).activities@[k],
    {
        let ghost orig = self.activities@;
        match self.index(job) {
            Some(i) => {
                self.activities.remove(i);
                proof {
                    orig.remove_ensures(i as int);
                    assert(self.activities@ == orig.remove(i as int));
                    assert(i >= 1) by {
                        assert(orig[0].job is None);
                    }
                    assert(self.activities@[0] == orig[0]);
                    assert forall|p: int|
                        0 <= p < self.activities@.len() implies self.activities@[p].job
                        != Some(job) by {
                        if p < i {
                            assert(self.activities@[p] == orig[p]);
                        } else {
                            assert(self.activities@[p] == orig[p + 1]);
                        }
                    }
                    assert forall|j2: usize|
                        j2 != job && tour_has_job(*old(self), j2) implies tour_has_job(
                        *self,
                        j2,
                    ) by {
                        let p = choose|p: int|
                            0 <= p < orig.len() && orig[p].job == Some(j2);
                        if p < i {
                            assert(self.activities@[p] == orig[p]);
                        } else {
                            assert(p != i);
                            assert(self.activities@[p - 1] == orig[p]);
                        }
                    }
                    assert forall|j2: usize| tour_has_job(*self, j2) implies tour_has_job(
                        *old(self),
                        j2,
                    ) by {
                        let p = choose|p: int|
                            0 <= p < self.activities@.len() && self.activities@[p].job == Some(
                                j2,
                            );
                        if p < i {
                            assert(orig[p].job == Some(j2));
                        } else {
                            assert(orig[p + 1].job == Some(j2));
                        }
                    }
                    assert forall|p1: int, p2: int|
                        0 <= p1 < p2 < self.activities@.len() && self.activities@[p1].job
                            is Some implies self.activities@[p1].job != self.activities@[p2].job by {
                        let q1: int = if p1 < i { p1 } else { p1 + 1 };
                        let q2: int = if p2 < i { p2 } else { p2 + 1 };
                        assert(self.activities@[p1] == orig[q1]);
                        assert(self.activities@[p2] == orig[q2]);
                    }
                    assert forall|p: int|
                        0 <= p < self.activities@.len() implies exists|k: int|
                        0 <= k < orig.len() && #[trigger] self.activities@[p] == orig[k] by {
                        if p < i {
                            assert(self.activities@[p] == orig[p]);
                        } else {
                            assert(self.activities@[p] == orig[p + 1]);
                        }
                    }
                }
                true
            },
            None => false,
        }
    }
}

/// A vehicle's actor bound to its tour.  Actor, vehicle and routing profile
/// are arena ids of the problem's fleet.
pub struct Route {
    pub actor: usize,
    pub vehicle: usize,
    pub profile: usize,
    pub tour: Tour,
}

/// A candidate place of a single job: an optional location, a service
/// duration and the permitted time windows.
pub struct Place {
    pub location: Option<usize>,
    pub duration: u64,
    pub times: Vec<(u64, u64)>,
}

/// One schedulable unit of work.
pub struct SingleJob {
    pub places: Vec<Place>,
    pub is_break: bool,
    pub vehicle_id: Option<usize>,
}

/// A job: one unit, or an ordered group that must be visited together.
pub enum JobDef {
    Single(SingleJob),
    Multi(Vec<SingleJob>),
}

/// Start and end detail of an actor.
#[derive(Clone, Copy, Debug, PartialEq, Eq, Structural)]
pub struct ActorDetail {
    pub start: Option<usize>,
    pub end: Option<usize>,
}

/// The immutable problem: job and fleet arenas, a time-independent transport
/// cost matrix per profile, and a proximity-ordered neighbor index.
pub struct Problem {
    pub jobs: Vec<JobDef>,
    pub fleet: Vec<ActorDetail>,
    pub n_locations: usize,
    pub n_profiles: usize,
    /// `transport[p][from][to]` is the scalar travel cost for profile `p`.
    pub transport: Vec<Vec<Vec<i64>>>,
    /// `neighbors[p][j]` lists the other jobs in order of proximity to `j`.
    pub neighbors: Vec<Vec<Vec<usize>>>,
}

/// Bound on the magnitude of a single transport cost, so that window savings
/// and their per-job accumulations stay far from overflow.
pub const COST_BOUND: i64 = 0x10000000;

pub open spec fn wf_problem(p: Problem) -> bool {
    &&& p.jobs@.len() < 0x10000
    &&& p.n_locations < 0x10000
    &&& p.transport@.len() == p.n_profiles
    &&& forall|pr: int|
        0 <= pr < p.n_profiles ==> #[trigger] p.transport@[pr]@.len() == p.n_locations
    &&& forall|pr: int, a: int|
        0 <= pr < p.n_profiles && 0 <= a < p.n_locations ==> #[trigger] p.transport@[pr]@[a]@.len()
            == p.n_locations
    &&& forall|pr: int, a: int, b: int|
        0 <= pr < p.n_profiles && 0 <= a < p.n_locations && 0 <= b < p.n_locations
            ==> -COST_BOUND <= #[trigger] p.transport@[pr]@[a]@[b] <= COST_BOUND
    &&& p.neighbors@.len() == p.n_profiles
    &&& forall|pr: int|
        0 <= pr < p.n_profiles ==> #[trigger] p.neighbors@[pr]@.len() == p.jobs@.len()
    &&& forall|pr: int, j: int, k: int|
        0 <= pr < p.n_profiles && 0 <= j < p.jobs@.len() && 0 <= k < p.neighbors@[pr]@[j]@.len()
            ==> #[trigger] p.neighbors@[pr]@[j]@[k] < p.jobs@.len()
}

impl Problem {
    /// Travel cost between two locations under a profile.  Stands for the
    /// transport service; the matrix is time-independent.
    pub fn cost(&self, profile: usize, from: usize, to: usize) -> (r: i64)
        requires
            wf_problem(*self),
            profile < self.n_profiles,
            from < self.n_locations,
            to < self.n_locations,
        ensures
            r == self.transport@[profile as int]@[from as int]@[to as int],
            -COST_BOUND <= r <= COST_BOUND,
    {
        self.transport[profile][from][to]
    }

    /// The proximity-ordered neighbor jobs of `job` under `profile`.
    pub fn neighbors_of(&self, profile: usize, job: usize) -> (r: &Vec<usize>)
        requires
            wf_problem(*self),
            profile < self.n_profiles,
            job < self.jobs@.len(),
        ensures
            r@ == self.neighbors@[profile as int]@[job as int]@,
            forall|k: int| 0 <= k < r@.len() ==> #[trigger] r@[k] < self.jobs@.len(),
    {
        &self.neighbors[profile][job]
    }
}

/// The aggregate of all routes plus the three job pools: `required` holds
/// jobs pending insertion, `locked` the jobs ruin must never touch, and
/// `unassigned` maps a job to the code of its failed insertion.
pub struct SolutionContext {
    pub routes: Vec<Route>,
    pub required: Vec<usize>,
    pub ignored: Vec<usize>,
    pub locked: Vec<usize>,
    pub unassigned: Vec<(usize, i32)>,
}

/// Whether job `j` is assigned inside some tour of the solution.
pub open spec fn assigned_in(s: SolutionContext, j: usize) -> bool {
    exists|r: int| 0 <= r < s.routes@.len() && tour_has_job(s.routes@[r].tour, j)
}

/// Whether job `j` stands in the unassigned pool.
pub open spec fn in_unassigned(s: SolutionContext, j: usize) -> bool {
    exists|k: int| 0 <= k < s.unassigned@.len() && s.unassigned@[k].0 == j
}

/// Well-formedness of a route set against its problem: tours are well
/// formed, short enough for the limit arithmetic, their ids lie inside the
/// arenas, and no job is assigned in two tours.
pub open spec fn wf_routes(rs: Seq<Route>, p: Problem) -> bool {
    &&& rs.len() < 0x10000
    &&& forall|r: int| 0 <= r < rs.len() ==> wf_tour(#[trigger] rs[r].tour)
    &&& forall|r: int| 0 <= r < rs.len() ==> #[trigger] rs[r].profile < p.n_profiles
    &&& forall|r: int| 0 <= r < rs.len() ==> #[trigger] rs[r].tour.activities@.len() < 0x10000
    &&& forall|r: int, i: int|
        0 <= r < rs.len() && 0 <= i < rs[r].tour.activities@.len() ==> {
            &&& (#[trigger] rs[r].tour.activities@[i]).location < p.n_locations
            &&& (rs[r].tour.activities@[i].job matches Some(j) ==> j < p.jobs@.len())
        }
    &&& forall|r1: int, r2: int, j: usize|
        #![trigger tour_has_job(rs[r1].tour, j), tour_has_job(rs[r2].tour, j)]
        0 <= r1 < r2 < rs.len() ==> !(tour_has_job(rs[r1].tour, j) && tour_has_job(
            rs[r2].tour,
            j,
        ))
}

/// Well-formedness of a solution against its problem: a well-formed route
/// set, and pools in which every job sits in at most one place.
pub open spec fn wf_solution(s: SolutionContext, p: Problem) -> bool {
    &&& wf_routes(s.routes@, p)
    &&& forall|i: int, k: int|
        0 <= i < k < s.required@.len() ==> #[trigger] s.required@[i] != #[trigger] s.required@[k]
    &&& forall|i: int| 0 <= i < s.required@.len() ==> #[trigger] s.required@[i] < p.jobs@.len()
    &&& forall|i: int|
        0 <= i < s.required@.len() ==> !assigned_in(s, #[trigger] s.required@[i])
    &&& forall|i: int, k: int|
        #![trigger s.unassigned@[i], s.unassigned@[k]]
        0 <= i < k < s.unassigned@.len() ==> s.unassigned@[i].0 != s.unassigned@[k].0
    &&& forall|i: int|
        0 <= i < s.unassigned@.len() ==> !assigned_in(s, (#[trigger] s.unassigned@[i]).0)
    &&& forall|i: int|
        0 <= i < s.unassigned@.len() ==> !s.required@.contains((#[trigger] s.unassigned@[i]).0)
}

/// The mutable ruin working state: the problem, the solution being ruined
/// and the deterministic random stream.
pub struct InsertionContext {
    pub problem: Problem,
    pub solution: SolutionContext,
    pub random: crate::random::DefaultRandom,
}

pub open spec fn wf_insertion(c: InsertionContext) -> bool {
    &&& wf_problem(c.problem)
    &&& wf_solution(c.solution, c.problem)
}

/// Whether no tour of the solution binds any job.
pub open spec fn no_jobs_anywhere(s: SolutionContext) -> bool {
    forall|r: int| 0 <= r < s.routes@.len() ==> !tour_has_some_job(#[trigger] s.routes@[r].tour)
}

/// The suffix that a ruin call appended to the required pool: exactly the
/// jobs it removed, in removal order.
pub open spec fn removed_of(old_s: SolutionContext, new_s: SolutionContext) -> Seq<usize> {
    new_s.required@.skip(old_s.required@.len() as int)
}

/// Route count, actors and start activities survive a ruin call unchanged.
pub open spec fn routes_shape_kept(old_s: SolutionContext, new_s: SolutionContext) -> bool {
    &&& new_s.routes@.len() == old_s.routes@.len()
    &&& forall|r: int|
        0 <= r < new_s.routes@.len() ==> {
            &&& (#[trigger] new_s.routes@[r]).actor == old_s.routes@[r].actor
            &&& new_s.routes@[r].vehicle == old_s.routes@[r].vehicle
            &&& new_s.routes@[r].profile == old_s.routes@[r].profile
            &&& new_s.routes@[r].tour.activities@.len() >= 1
            &&& new_s.routes@[r].tour.activities@[0] == old_s.routes@[r].tour.activities@[0]
        }
}

/// The tour-side contract of a ruin step.  `removed` lists the removed jobs
/// in order: none of them locked, each taken from the tour that held it and
/// from nowhere else, while the locked, unassigned and ignored pools stay
/// untouched.
pub open spec fn ruin_core(
    old_s: SolutionContext,
    new_s: SolutionContext,
    removed: Seq<usize>,
) -> bool {
    &&& routes_shape_kept(old_s, new_s)
    &&& forall|r: int, j: usize|
        #![trigger tour_has_job(new_s.routes@[r].tour, j)]
        0 <= r < new_s.routes@.len() ==> (tour_has_job(new_s.routes@[r].tour, j)
            <==> tour_has_job(old_s.routes@[r].tour, j) && !removed.contains(j))
    &&& removed.no_duplicates()
    &&& forall|k: int| 0 <= k < removed.len() ==> !old_s.locked@.contains(#[trigger] removed[k])
    &&& forall|k: int| 0 <= k < removed.len() ==> assigned_in(old_s, #[trigger] removed[k])
    &&& new_s.locked@ == old_s.locked@
    &&& new_s.unassigned@ == old_s.unassigned@
    &&& new_s.ignored@ == old_s.ignored@
}

/// The contract every ruin strategy obeys: a ruin step whose removed jobs
/// are all appended to the required pool, in order.
pub open spec fn ruin_outcome(
    old_s: SolutionContext,
    new_s: SolutionContext,
    removed: Seq<usize>,
) -> bool {
    &&& ruin_core(old_s, new_s, removed)
    &&& new_s.required@ == old_s.required@ + removed
}

/// Membership in a sequence after a push: the pushed value, or anything
/// already there.
pub proof fn lemma_push_contains<A>(s: Seq<A>, v: A, x: A)
    ensures
        s.push(v).contains(x) <==> (s.contains(x) || x == v),
{
    assert(s.push(v)[s.len() as int] == v);
    if s.push(v).contains(x) {
        let i = choose|i: int| 0 <= i < s.push(v).len() && s.push(v)[i] == x;
        if i < s.len() {
            assert(s[i] == x);
        }
    }
    if s.contains(x) {
        let i = choose|i: int| 0 <= i < s.len() && s[i] == x;
        assert(s.push(v)[i] == x);
    }
}

/// When every tour membership of `cur` already held in `old_sol`, the
/// required and unassigned pools of `cur` still point at no assigned job.
pub proof fn lemma_pools_not_assigned(old_sol: SolutionContext, cur: SolutionContext, prob: Problem)
    requires
        wf_solution(old_sol, prob),
        cur.required@ == old_sol.required@,
        cur.unassigned@ == old_sol.unassigned@,
        cur.routes@.len() == old_sol.routes@.len(),
        forall|r: int, j: usize|
            #![trigger tour_has_job(cur.routes@[r].tour, j)]
            0 <= r < cur.routes@.len() ==> (tour_has_job(cur.routes@[r].tour, j) ==> tour_has_job(
                old_sol.routes@[r].tour,
                j,
            )),
    ensures
        forall|i: int|
            0 <= i < cur.required@.len() ==> !assigned_in(cur, #[trigger] cur.required@[i]),
        forall|i: int|
            0 <= i < cur.unassigned@.len() ==> !assigned_in(cur, (#[trigger] cur.unassigned@[i]).0),
{
    assert forall|i: int|
        0 <= i < cur.required@.len() implies !assigned_in(cur, #[trigger] cur.required@[i]) by {
        if assigned_in(cur, cur.required@[i]) {
            let rx = choose|rx: int|
                0 <= rx < cur.routes@.len() && tour_has_job(cur.routes@[rx].tour, cur.required@[i]);
            assert(tour_has_job(old_sol.routes@[rx].tour, cur.required@[i]));
            assert(assigned_in(old_sol, old_sol.required@[i]));
        }
    }
    assert forall|i: int|
        0 <= i < cur.unassigned@.len() implies !assigned_in(
        cur,
        (#[trigger] cur.unassigned@[i]).0,
    ) by {
        if assigned_in(cur, cur.unassigned@[i].0) {
            let rx = choose|rx: int|
                0 <= rx < cur.routes@.len() && tour_has_job(
                    cur.routes@[rx].tour,
                    cur.unassigned@[i].0,
                );
            assert(tour_has_job(old_sol.routes@[rx].tour, cur.unassigned@[i].0));
            assert(assigned_in(old_sol, old_sol.unassigned@[i].0));
        }
    }
}

/// After removing the single activity of job `j` from route `rj` of a
/// solution that satisfied the ruin contract, the contract holds again
/// with `j` recorded as removed.
#[verifier::rlimit(100)]
pub proof fn lemma_core_after_remove(
    old_sol: SolutionContext,
    pre: SolutionContext,
    cur: SolutionContext,
    pre_removed: Seq<usize>,
    rj: int,
    j: usize,
    prob: Problem,
)
    requires
        wf_problem(prob),
        wf_solution(old_sol, prob),
        wf_solution(pre, prob),
        ruin_core(old_sol, pre, pre_removed),
        pre.required@ == old_sol.required@,
        0 <= rj < pre.routes@.len(),
        !old_sol.locked@.contains(j),
        tour_has_job(pre.routes@[rj].tour, j),
        cur.routes@.len() == pre.routes@.len(),
        forall|rt: int|
            0 <= rt < cur.routes@.len() && rt != rj ==> #[trigger] cur.routes@[rt]
                == pre.routes@[rt],
        cur.routes@[rj].actor == pre.routes@[rj].actor,
        cur.routes@[rj].vehicle == pre.routes@[rj].vehicle,
        cur.routes@[rj].profile == pre.routes@[rj].profile,
        wf_tour(cur.routes@[rj].tour),
        cur.routes@[rj].tour.activities@.len() < 0x10000,
        cur.routes@[rj].tour.activities@[0] == pre.routes@[rj].tour.activities@[0],
        !tour_has_job(cur.routes@[rj].tour, j),
        forall|j2: usize|
            j2 != j ==> tour_has_job(cur.routes@[rj].tour, j2) == tour_has_job(
                pre.routes@[rj].tour,
                j2,
            ),
        forall|i: int|
            0 <= i < cur.routes@[rj].tour.activities@.len() ==> exists|k: int|
                0 <= k < pre.routes@[rj].tour.activities@.len()
                    && #[trigger] cur.routes@[rj].tour.activities@[i]
                    == pre.routes@[rj].tour.activities@[k],
        cur.required@ == pre.required@,
        cur.locked@ == pre.locked@,
        cur.unassigned@ == pre.unassigned@,
        cur.ignored@ == pre.ignored@,
    ensures
        wf_solution(cur, prob),
        ruin_core(old_sol, cur, pre_removed.push(j)),
{
    let removed = pre_removed.push(j);
    assert(!pre_removed.contains(j));
    assert forall|rt: int, jx: usize|
        #![trigger tour_has_job(cur.routes@[rt].tour, jx)]
        0 <= rt < cur.routes@.len() implies (tour_has_job(cur.routes@[rt].tour, jx)
        <==> tour_has_job(old_sol.routes@[rt].tour, jx) && !removed.contains(jx)) by {
        lemma_push_contains(pre_removed, j, jx);
        if rt != rj {
            assert(cur.routes@[rt] == pre.routes@[rt]);
            if tour_has_job(pre.routes@[rt].tour, jx) && jx == j {
                assert(tour_has_job(pre.routes@[rj].tour, j));
                assert(false);
            }
        }
    }
    assert(removed.no_duplicates()) by {
        assert forall|p1: int, p2: int|
            0 <= p1 < p2 < removed.len() implies removed[p1] != removed[p2] by {
            if p2 < pre_removed.len() {
            } else {
                assert(removed[p2] == j);
                if p1 < pre_removed.len() && removed[p1] == j {
                    assert(pre_removed[p1] == j);
                    assert(pre_removed.contains(j));
                }
            }
        }
    }
    assert forall|k: int|
        0 <= k < removed.len() implies !old_sol.locked@.contains(#[trigger] removed[k]) by {
        if k < pre_removed.len() {
            assert(removed[k] == pre_removed[k]);
        } else {
            assert(removed[k] == j);
        }
    }
    assert forall|k: int|
        0 <= k < removed.len() implies assigned_in(old_sol, #[trigger] removed[k]) by {
        if k < pre_removed.len() {
            assert(removed[k] == pre_removed[k]);
        } else {
            assert(removed[k] == j);
            assert(tour_has_job(old_sol.routes@[rj].tour, j));
        }
    }
    assert(wf_solution(cur, prob)) by {
        assert forall|r: int, i: int|
            0 <= r < cur.routes@.len() && 0 <= i < cur.routes@[r].tour.activities@.len() implies {
            &&& (#[trigger] cur.routes@[r].tour.activities@[i]).location < prob.n_locations
            &&& (cur.routes@[r].tour.activities@[i].job matches Some(jv) ==> jv < prob.jobs@.len())
        } by {
            if r == rj {
                let k = choose|k: int|
                    0 <= k < pre.routes@[rj].tour.activities@.len()
                        && cur.routes@[rj].tour.activities@[i]
                        == pre.routes@[rj].tour.activities@[k];
                assert(pre.routes@[rj].tour.activities@[k].location < prob.n_locations);
            }
        }
        assert forall|r1: int, r2: int, jx: usize|
            #![trigger tour_has_job(cur.routes@[r1].tour, jx), tour_has_job(cur.routes@[r2].tour, jx)]
            0 <= r1 < r2 < cur.routes@.len() implies !(tour_has_job(cur.routes@[r1].tour, jx)
            && tour_has_job(cur.routes@[r2].tour, jx)) by {
            if tour_has_job(cur.routes@[r1].tour, jx) && tour_has_job(cur.routes@[r2].tour, jx) {
                assert(tour_has_job(pre.routes@[r1].tour, jx));
                assert(tour_has_job(pre.routes@[r2].tour, jx));
            }
        }
        assert forall|r: int, jx: usize|
            #![trigger tour_has_job(cur.routes@[r].tour, jx)]
            0 <= r < cur.routes@.len() && tour_has_job(cur.routes@[r].tour, jx)
            implies tour_has_job(old_sol.routes@[r].tour, jx) by {}
        lemma_pools_not_assigned(old_sol, cur, prob);
    }
}

/// The required-pool handoff every ruin strategy ends with: appends each
/// removed job to the required pool, in removal order, establishing the
/// full ruin contract.
#[verifier::rlimit(100)]
pub(crate) fn push_required(
    solution: &mut SolutionContext,
    removed: &Vec<usize>,
    Ghost(old_sol): Ghost<SolutionContext>,
    Ghost(prob): Ghost<Problem>,
)
    requires
        wf_problem(prob),
        wf_solution(old_sol, prob),
        wf_solution(*old(solution), prob),
        ruin_core(old_sol, *old(solution), removed@),
        old(solution).required@ == old_sol.required@,
    ensures
        final(solution).routes@ == old(solution).routes@,
        final(solution).locked@ == old(solution).locked@,
        final(solution).unassigned@ == old(solution).unassigned@,
        final(solution).ignored@ == old(solution).ignored@,
        final(solution).required@ == old_sol.required@ + removed@,
        wf_solution(*final(solution), prob),
        ruin_outcome(old_sol, *final(solution), removed@),
{
    let ghost pre_hand = *old(solution);
    let mut hi: usize = 0;
    while hi < removed.len()
        invariant
            hi <= removed@.len(),
            solution.required@ == pre_hand.required@ + removed@.take(hi as int),
            solution.routes@ == pre_hand.routes@,
            solution.locked@ == pre_hand.locked@,
            solution.unassigned@ == pre_hand.unassigned@,
            solution.ignored@ == pre_hand.ignored@,
        decreases removed@.len() - hi,
    {
        let j = removed[hi];
        proof {
            assert(removed@.take(hi as int + 1) =~= removed@.take(hi as int).push(
                removed@[hi as int],
            ));
        }
        solution.required.push(j);
        hi = hi + 1;
    }
    proof {
        assert(removed@.take(removed@.len() as int) =~= removed@);
        assert(solution.required@ == old_sol.required@ + removed@);
        assert(wf_solution(*solution, prob)) by {
            let olen = old_sol.required@.len() as int;
            assert forall|i1: int, k1: int|
                0 <= i1 < k1 < solution.required@.len() implies #[trigger] solution.required@[i1]
                != #[trigger] solution.required@[k1] by {
                if k1 < olen {
                } else if i1 < olen {
                    assert(solution.required@[i1] == old_sol.required@[i1]);
                    assert(solution.required@[k1] == removed@[k1 - olen]);
                    assert(assigned_in(old_sol, removed@[k1 - olen]));
                    assert(!assigned_in(old_sol, old_sol.required@[i1]));
                } else {
                    assert(solution.required@[i1] == removed@[i1 - olen]);
                    assert(solution.required@[k1] == removed@[k1 - olen]);
                }
            }
            assert forall|i1: int|
                0 <= i1 < solution.required@.len() implies #[trigger] solution.required@[i1]
                < prob.jobs@.len() by {
                if i1 >= olen {
                    let j = removed@[i1 - olen];
                    assert(assigned_in(old_sol, j));
                    let rx = choose|rx: int|
                        0 <= rx < old_sol.routes@.len() && tour_has_job(
                            old_sol.routes@[rx].tour,
                            j,
                        );
                    let px = choose|px: int|
                        0 <= px < old_sol.routes@[rx].tour.activities@.len()
                            && old_sol.routes@[rx].tour.activities@[px].job == Some(j);
                    assert(old_sol.routes@[rx].tour.activities@[px].job matches Some(jv) ==> jv
                        < prob.jobs@.len());
                }
            }
            assert forall|i1: int|
                0 <= i1 < solution.required@.len() implies !assigned_in(
                *solution,
                #[trigger] solution.required@[i1],
            ) by {
                let j = solution.required@[i1];
                if assigned_in(*solution, j) {
                    let rx = choose|rx: int|
                        0 <= rx < solution.routes@.len() && tour_has_job(
                            solution.routes@[rx].tour,
                            j,
                        );
                    assert(tour_has_job(pre_hand.routes@[rx].tour, j));
                    assert(tour_has_job(old_sol.routes@[rx].tour, j) && !removed@.contains(j));
                    if i1 < olen {
                        assert(j == old_sol.required@[i1]);
                        assert(assigned_in(old_sol, j));
                    } else {
                        assert(j == removed@[i1 - olen]);
                        assert(removed@.contains(j));
                    }
                }
            }
            assert forall|i1: int|
                0 <= i1 < solution.unassigned@.len() implies !assigned_in(
                *solution,
                (#[trigger] solution.unassigned@[i1]).0,
            ) by {
                let j = solution.unassigned@[i1].0;
                if assigned_in(*solution, j) {
                    let rx = choose|rx: int|
                        0 <= rx < solution.routes@.len() && tour_has_job(
                            solution.routes@[rx].tour,
                            j,
                        );
                    assert(tour_has_job(old_sol.routes@[rx].tour, j));
                    assert(assigned_in(old_sol, old_sol.unassigned@[i1].0));
                }
            }
            assert forall|i1: int|
                0 <= i1 < solution.unassigned@.len() implies !solution.required@.contains(
                (#[trigger] solution.unassigned@[i1]).0,
            ) by {
                let j = solution.unassigned@[i1].0;
                if solution.required@.contains(j) {
                    let i2 = choose|i2: int|
                        0 <= i2 < solution.required@.len() && solution.required@[i2] == j;
                    if i2 < olen {
                        assert(old_sol.required@.contains(j)) by {
                            assert(old_sol.required@[i2] == j);
                        }
                    } else {
                        assert(removed@[i2 - olen] == j);
                        assert(assigned_in(old_sol, j));
                        assert(!assigned_in(old_sol, old_sol.unassigned@[i1].0));
                    }
                }
            }
        }
    }
}

/// Pushing never loses members.
pub proof fn lemma_push_preserves_contains<A>(s: Seq<A>, v: A)
    ensures
        forall|x: A| s.contains(x) ==> #[trigger] s.push(v).contains(x),
{
    assert forall|x: A| s.contains(x) implies #[trigger] s.push(v).contains(x) by {
        lemma_push_contains(s, v, x);
    }
}

/// Removes job `j` from route `rj`'s tour if it is still there, recording
/// it in the removed set.  Preserves the ruin contract against the solution
/// as it stood when the whole call began.
#[verifier::rlimit(100)]
pub(crate) fn remove_one_job(
    solution: &mut SolutionContext,
    removed: &mut Vec<usize>,
    rj: usize,
    j: usize,
    Ghost(old_sol): Ghost<SolutionContext>,
    Ghost(prob): Ghost<Problem>,
) -> (was: bool)
    requires
        wf_problem(prob),
        wf_solution(old_sol, prob),
        wf_solution(*old(solution), prob),
        ruin_core(old_sol, *old(solution), old(removed)@),
        old(solution).required@ == old_sol.required@,
        rj < old(solution).routes@.len(),
        !old_sol.locked@.contains(j),
    ensures
        wf_solution(*final(solution), prob),
        ruin_core(old_sol, *final(solution), final(removed)@),
        final(solution).required@ == old_sol.required@,
        final(solution).routes@.len() == old(solution).routes@.len(),
        forall|rt: int|
            0 <= rt < final(solution).routes@.len() && rt != rj
                ==> #[trigger] final(solution).routes@[rt] == old(solution).routes@[rt],
        was == tour_has_job(old(solution).routes@[rj as int].tour, j),
        was ==> final(removed)@ == old(removed)@.push(j),
        was ==> final(solution).routes@[rj as int].tour.activities@.len() == old(
            solution,
        ).routes@[rj as int].tour.activities@.len() - 1,
        !was ==> final(removed)@ == old(removed)@ && *final(solution) == *old(solution),
{
    let ghost pre = *old(solution);
    let ghost pre_removed = removed@;
    match solution.routes[rj].tour.index(j) {
        Some(_) => {
            proof {
                assert(tour_has_job(pre.routes@[rj as int].tour, j));
            }
            let _detached = solution.routes[rj].tour.remove(j);
            removed.push(j);
            proof {
                assert(removed@ == pre_removed.push(j));
                lemma_core_after_remove(
                    old_sol,
                    pre,
                    *solution,
                    pre_removed,
                    rj as int,
                    j,
                    prob,
                );
            }
            true
        },
        None => false,
    }
}

/// Linear membership scan over a pool of job ids.
pub fn pool_contains(pool: &Vec<usize>, job: usize) -> (r: bool)
    ensures
        r == pool@.contains(job),
{
    let mut i: usize = 0;
    while i < pool.len()
        invariant
            i <= pool@.len(),
            forall|k: int| 0 <= k < i ==> pool@[k] != job,
        decreases pool@.len() - i,
    {
        if pool[i] == job {
            return true;
        }
        i = i + 1;
    }
    false
}

/// Linear membership scan over the unassigned pool's keys.
pub fn unassigned_contains(pool: &Vec<(usize, i32)>, job: usize) -> (r: bool)
    ensures
        r == exists|k: int| 0 <= k < pool@.len() && pool@[k].0 == job,
{
    let mut i: usize = 0;
    while i < pool.len()
        invariant
            i <= pool@.len(),
            forall|k: int| 0 <= k < i ==> pool@[k].0 != job,
        decreases pool@.len() - i,
    {
        if pool[i].0 == job {
            return true;
        }
        i = i + 1;
    }
    false
}

} // verus!
