//! Worst-job removal: ranks the jobs of each route by the routing cost they
//! save when taken out, then removes the most expensive removable job of
//! each route in a random route order, together with up to a drawn number
//! of its proximity neighbors, until a threshold of removed jobs is passed.

use vstd::prelude::*;

use crate::model::InsertionContext;
use crate::model::Problem;
use crate::model::SolutionContext;
use crate::model::assigned_in;
use crate::model::no_jobs_anywhere;
use crate::model::pool_contains;
use crate::model::removed_of;
use crate::model::ruin_core;
use crate::model::ruin_outcome;
use crate::model::tour_has_job;
use crate::model::unassigned_contains;
use crate::model::wf_insertion;
use crate::model::wf_problem;
use crate::model::wf_solution;
use crate::random::DefaultRandom;

verus! {

/// Every interior activity of every tour is bound to a job; the cost
/// windows of the savings computation read the job of each middle
/// activity, and a window without one means a corrupted solution.
pub open spec fn savings_ready(s: SolutionContext) -> bool {
    forall|r: int, i: int|
        0 <= r < s.routes@.len() && 1 <= i < s.routes@[r].tour.activities@.len() - 1
            ==> #[trigger] s.routes@[r].tour.activities@[i].job is Some
}

/// A ruin strategy which detects the most cost-expensive jobs in each route
/// and deletes them with their neighbours.
pub struct WorstJobRemoval {
    /// Minimum amount of jobs to remove with each seed.
    pub min: usize,
    /// Maximum amount of jobs to remove with each seed.
    pub max: usize,
    /// Amount of removed jobs after which the call stops.
    pub threshold: usize,
    /// Upper bound of the random skip over each route's best savings.
    pub worst_skip: usize,
}

pub open spec fn wf_worst(w: WorstJobRemoval) -> bool {
    &&& w.min <= w.max
    &&& w.max < 0x10000
    &&& w.threshold < 0x10000
    &&& w.worst_skip < 0x10000
}

impl WorstJobRemoval {
    pub fn new(threshold: usize, worst_skip: usize, min: usize, max: usize) -> (r: WorstJobRemoval)
        requires
            min <= max,
            max < 0x10000,
            threshold < 0x10000,
            worst_skip < 0x10000,
        ensures
            r == (WorstJobRemoval { min, max, threshold, worst_skip }),
            wf_worst(r),
    {
        WorstJobRemoval { min, max, threshold, worst_skip }
    }
}

impl Default for WorstJobRemoval {
    fn default() -> (r: WorstJobRemoval)
        ensures
            r == (WorstJobRemoval { min: 1, max: 4, threshold: 32, worst_skip: 4 }),
            wf_worst(r),
    {
        WorstJobRemoval::new(32, 4, 1, 4)
    }
}

/// Indexes the routes by job: entry `j` names the route whose tour holds
/// job `j`, if any.
pub fn get_route_jobs(solution: &SolutionContext, problem: &Problem) -> (r: Vec<Option<usize>>)
    requires
        wf_problem(*problem),
        wf_solution(*solution, *problem),
    ensures
        r@.len() == problem.jobs@.len(),
        forall|j: int|
            0 <= j < r@.len() ==> match #[trigger] r@[j] {
                Some(ri) => ri < solution.routes@.len() && tour_has_job(
                    solution.routes@[ri as int].tour,
                    j as usize,
                ),
                None => !assigned_in(*solution, j as usize),
            },
{
    let n_jobs = problem.jobs.len();
    let mut r: Vec<Option<usize>> = Vec::new();
    let mut j: usize = 0;
    while j < n_jobs
        invariant
            j <= n_jobs,
            r@.len() == j,
            forall|x: int| 0 <= x < j ==> #[trigger] r@[x] is None,
        decreases n_jobs - j,
    {
        r.push(None);
        j = j + 1;
    }
    let mut ri: usize = 0;
    while ri < solution.routes.len()
        invariant
            ri <= solution.routes@.len(),
            wf_problem(*problem),
            wf_solution(*solution, *problem),
            r@.len() == problem.jobs@.len(),
            forall|x: int|
                0 <= x < r@.len() ==> match #[trigger] r@[x] {
                    Some(rx) => rx < solution.routes@.len() && tour_has_job(
                        solution.routes@[rx as int].tour,
                        x as usize,
                    ),
                    None => forall|ry: int|
                        0 <= ry < ri ==> !tour_has_job(
                            #[trigger] solution.routes@[ry].tour,
                            x as usize,
                        ),
                },
        decreases solution.routes@.len() - ri,
    {
        let tour_len = solution.routes[ri].tour.activities.len();
        let mut i: usize = 0;
        while i < tour_len
            invariant
                i <= tour_len,
                ri < solution.routes@.len(),
                tour_len == solution.routes@[ri as int].tour.activities@.len(),
                wf_problem(*problem),
                wf_solution(*solution, *problem),
                r@.len() == problem.jobs@.len(),
                forall|x: int|
                    0 <= x < r@.len() ==> match #[trigger] r@[x] {
                        Some(rx) => rx < solution.routes@.len() && tour_has_job(
                            solution.routes@[rx as int].tour,
                            x as usize,
                        ),
                        None => (forall|ry: int|
                            0 <= ry < ri ==> !tour_has_job(
                                #[trigger] solution.routes@[ry].tour,
                                x as usize,
                            )) && forall|p: int|
                            0 <= p < i
                                ==> #[trigger] solution.routes@[ri as int].tour.activities@[p].job
                                != Some(x as usize),
                    },
            decreases tour_len - i,
        {
            match solution.routes[ri].tour.get(i) {
                Some(jb) => {
                    proof {
                        assert(jb < problem.jobs@.len());
                    }
                    r[jb] = Some(ri);
                },
                None => {},
            }
            i = i + 1;
        }
        proof {
            assert forall|x: int|
                0 <= x < r@.len() && r@[x] is None implies forall|ry: int|
                0 <= ry < ri + 1 ==> !tour_has_job(
                    #[trigger] solution.routes@[ry].tour,
                    x as usize,
                ) by {
                assert(forall|p: int|
                    0 <= p < solution.routes@[ri as int].tour.activities@.len()
                        ==> #[trigger] solution.routes@[ri as int].tour.activities@[p].job != Some(
                        x as usize,
                    ));
            }
        }
        ri = ri + 1;
    }
    r
}

/// Whether `e1` stands before `e2` somewhere in the original entry list.
pub open spec fn tie_order(orig: Seq<(usize, i64)>, e1: (usize, i64), e2: (usize, i64)) -> bool {
    exists|ia: int, ib: int|
        0 <= ia < ib < orig.len() && #[trigger] orig[ia] == e1 && #[trigger] orig[ib] == e2
}

/// Sorts savings entries descending by their saving: a permutation of the
/// input when its jobs are pairwise distinct, with no entry lost; entries
/// with equal savings keep their input order.
fn sort_savings_desc(input: Vec<(usize, i64)>) -> (r: Vec<(usize, i64)>)
    ensures
        r@.len() == input@.len(),
        forall|a: int, b: int| 0 <= a < b < r@.len() ==> r@[a].1 >= r@[b].1,
        forall|k: int| 0 <= k < r@.len() ==> input@.contains(#[trigger] r@[k]),
        forall|k: int| 0 <= k < input@.len() ==> r@.contains(#[trigger] input@[k]),
        (forall|a: int, b: int|
            #![trigger input@[a], input@[b]]
            0 <= a < b < input@.len() ==> input@[a].0 != input@[b].0) ==> forall|a: int, b: int|
            #![trigger r@[a], r@[b]]
            0 <= a < b < r@.len() ==> r@[a].0 != r@[b].0,
        forall|a: int, b: int|
            #![trigger r@[a], r@[b]]
            0 <= a < b < r@.len() && r@[a].1 == r@[b].1 ==> tie_order(input@, r@[a], r@[b]),
{
    let ghost orig = input@;
    let ghost distinct = forall|a: int, b: int|
        #![trigger orig[a], orig[b]]
        0 <= a < b < orig.len() ==> orig[a].0 != orig[b].0;
    let mut v = input;
    let mut r: Vec<(usize, i64)> = Vec::new();
    let ghost mut vidx: Seq<int> = Seq::new(orig.len(), |x: int| x);
    let ghost mut ridx: Seq<int> = Seq::empty();
    while v.len() > 0
        invariant
            r@.len() + v@.len() == orig.len(),
            vidx.len() == v@.len(),
            ridx.len() == r@.len(),
            forall|k: int| 0 <= k < vidx.len() ==> 0 <= #[trigger] vidx[k] < orig.len(),
            forall|k: int| 0 <= k < ridx.len() ==> 0 <= #[trigger] ridx[k] < orig.len(),
            forall|k: int| 0 <= k < v@.len() ==> orig[vidx[k]] == #[trigger] v@[k],
            forall|k: int| 0 <= k < r@.len() ==> orig[ridx[k]] == #[trigger] r@[k],
            forall|a: int, b: int|
                #![trigger vidx[a], vidx[b]]
                0 <= a < b < vidx.len() ==> vidx[a] < vidx[b],
            forall|a: int, k: int|
                #![trigger r@[a], v@[k]]
                0 <= a < r@.len() && 0 <= k < v@.len() && r@[a].1 == v@[k].1 ==> ridx[a]
                    < vidx[k],
            forall|a: int, b: int|
                #![trigger r@[a], r@[b]]
                0 <= a < b < r@.len() && r@[a].1 == r@[b].1 ==> ridx[a] < ridx[b],
            distinct == (forall|a: int, b: int|
                #![trigger orig[a], orig[b]]
                0 <= a < b < orig.len() ==> orig[a].0 != orig[b].0),
            forall|a: int, b: int| 0 <= a < b < r@.len() ==> r@[a].1 >= r@[b].1,
            forall|k: int| 0 <= k < r@.len() ==> orig.contains(#[trigger] r@[k]),
            forall|k: int| 0 <= k < v@.len() ==> orig.contains(#[trigger] v@[k]),
            forall|k: int|
                0 <= k < orig.len() ==> r@.contains(#[trigger] orig[k]) || v@.contains(orig[k]),
            forall|a: int, k: int|
                #![trigger r@[a], v@[k]]
                0 <= a < r@.len() && 0 <= k < v@.len() ==> r@[a].1 >= v@[k].1,
            distinct ==> forall|a: int, b: int|
                #![trigger r@[a], r@[b]]
                0 <= a < b < r@.len() ==> r@[a].0 != r@[b].0,
            distinct ==> forall|a: int, b: int|
                #![trigger v@[a], v@[b]]
                0 <= a < b < v@.len() ==> v@[a].0 != v@[b].0,
            distinct ==> forall|a: int, k: int|
                #![trigger r@[a], v@[k]]
                0 <= a < r@.len() && 0 <= k < v@.len() ==> r@[a].0 != v@[k].0,
        decreases v@.len(),
    {
        let mut m: usize = 0;
        let mut i: usize = 1;
        while i < v.len()
            invariant
                m < i <= v@.len(),
                forall|k: int| 0 <= k < i ==> v@[m as int].1 >= #[trigger] v@[k].1,
                forall|k: int| 0 <= k < m ==> #[trigger] v@[k].1 < v@[m as int].1,
            decreases v@.len() - i,
        {
            if v[i].1 > v[m].1 {
                m = i;
            }
            i = i + 1;
        }
        let best = v[m];
        let ghost pre_r = r@;
        let ghost pre_vidx = vidx;
        let ghost pre_ridx = ridx;
        r.push(best);
        proof {
            ridx = ridx.push(pre_vidx[m as int]);
        }
        let ghost pre_v = v@;
        v.remove(m);
        proof {
            vidx = pre_vidx.remove(m as int);
            pre_v.remove_ensures(m as int);
            pre_vidx.remove_ensures(m as int);
            assert forall|k: int|
                0 <= k < v@.len() implies orig[vidx[k]] == #[trigger] v@[k] by {
                if k < m {
                    assert(v@[k] == pre_v[k] && vidx[k] == pre_vidx[k]);
                } else {
                    assert(v@[k] == pre_v[k + 1] && vidx[k] == pre_vidx[k + 1]);
                }
            }
            assert forall|a: int, b: int|
                #![trigger vidx[a], vidx[b]]
                0 <= a < b < vidx.len() implies vidx[a] < vidx[b] by {
                let qa: int = if a < m {
                    a
                } else {
                    a + 1
                };
                let qb: int = if b < m {
                    b
                } else {
                    b + 1
                };
                assert(vidx[a] == pre_vidx[qa] && vidx[b] == pre_vidx[qb]);
            }
            assert forall|a: int, k: int|
                #![trigger r@[a], v@[k]]
                0 <= a < r@.len() && 0 <= k < v@.len() && r@[a].1 == v@[k].1 implies ridx[a]
                < vidx[k] by {
                let q: int = if k < m {
                    k
                } else {
                    k + 1
                };
                assert(v@[k] == pre_v[q] && vidx[k] == pre_vidx[q]);
                if a < pre_r.len() {
                    assert(pre_r[a].1 == pre_v[q].1);
                } else {
                    assert(r@[a] == best && ridx[a] == pre_vidx[m as int]);
                    if q < m {
                        assert(pre_v[q].1 < pre_v[m as int].1);
                        assert(false);
                    } else {
                        assert(pre_vidx[m as int] < pre_vidx[q]);
                    }
                }
            }
            assert forall|a: int, b: int|
                #![trigger r@[a], r@[b]]
                0 <= a < b < r@.len() && r@[a].1 == r@[b].1 implies ridx[a] < ridx[b] by {
                if b == pre_r.len() {
                    assert(r@[a] == pre_r[a]);
                    assert(r@[b] == best && ridx[b] == pre_vidx[m as int]);
                    assert(pre_r[a].1 == pre_v[m as int].1);
                    assert(pre_ridx[a] < pre_vidx[m as int]);
                }
            }
            assert forall|k: int| 0 <= k < v@.len() implies orig.contains(#[trigger] v@[k]) by {
                if k < m {
                    assert(v@[k] == pre_v[k]);
                } else {
                    assert(v@[k] == pre_v[k + 1]);
                }
            }
            assert forall|a: int, k: int|
                #![trigger r@[a], v@[k]]
                0 <= a < r@.len() && 0 <= k < v@.len() implies r@[a].1 >= v@[k].1 by {
                if k < m {
                    assert(v@[k] == pre_v[k]);
                } else {
                    assert(v@[k] == pre_v[k + 1]);
                }
            }
            assert forall|k: int|
                0 <= k < orig.len() implies r@.contains(#[trigger] orig[k]) || v@.contains(
                orig[k],
            ) by {
                crate::model::lemma_push_contains(pre_r, best, orig[k]);
                if !pre_r.contains(orig[k]) {
                    let idx = choose|idx: int| 0 <= idx < pre_v.len() && pre_v[idx] == orig[k];
                    if idx == m {
                        assert(orig[k] == best);
                    } else if idx < m {
                        assert(v@[idx] == pre_v[idx]);
                    } else {
                        assert(v@[idx - 1] == pre_v[idx]);
                    }
                }
            }
            assert forall|a2: int, b2: int|
                #![trigger r@[a2], r@[b2]]
                0 <= a2 < b2 < r@.len() && r@[a2].1 == r@[b2].1 implies tie_order(
                orig,
                r@[a2],
                r@[b2],
            ) by {
                assert(orig[ridx[a2]] == r@[a2]);
                assert(orig[ridx[b2]] == r@[b2]);
                assert(ridx[a2] < ridx[b2]);
            }
            if distinct {
                assert forall|a: int, k: int|
                    #![trigger r@[a], v@[k]]
                    0 <= a < r@.len() && 0 <= k < v@.len() implies r@[a].0 != v@[k].0 by {
                    let q: int = if k < m {
                        k
                    } else {
                        k + 1
                    };
                    assert(v@[k] == pre_v[q]);
                    if a < pre_r.len() {
                    } else {
                        assert(r@[a] == best);
                        assert(best == pre_v[m as int]);
                        assert(q != m);
                    }
                }
                assert forall|a: int, b: int|
                    #![trigger r@[a], r@[b]]
                    0 <= a < b < r@.len() implies r@[a].0 != r@[b].0 by {
                    if b == pre_r.len() {
                        assert(r@[b] == best);
                        assert(pre_r[a].0 != pre_v[m as int].0);
                    }
                }
            }
        }
    }
    proof {
        assert forall|a2: int, b2: int|
            #![trigger r@[a2], r@[b2]]
            0 <= a2 < b2 < r@.len() && r@[a2].1 == r@[b2].1 implies tie_order(
            orig,
            r@[a2],
            r@[b2],
        ) by {
            assert(orig[ridx[a2]] == r@[a2]);
            assert(orig[ridx[b2]] == r@[b2]);
            assert(ridx[a2] < ridx[b2]);
        }
    }
    r
}

/// The routing cost route `rt` saves when the job at position `i` of its
/// tour is taken out: the detour through it, under the route's profile.
pub open spec fn window_saving(p: Problem, rt: crate::model::Route, i: int) -> int {
    let acts = rt.tour.activities@;
    let pr = rt.profile as int;
    p.transport@[pr]@[acts[i - 1].location as int]@[acts[i].location as int]
        + p.transport@[pr]@[acts[i].location as int]@[acts[i + 1].location as int]
        - p.transport@[pr]@[acts[i - 1].location as int]@[acts[i + 1].location as int]
}

/// Whether the savings entry names an interior position of the route's
/// tour, paired with that position's window saving.
pub open spec fn entry_is_window(p: Problem, rt: crate::model::Route, entry: (usize, i64)) -> bool {
    exists|i: int|
        #![trigger rt.tour.activities@[i]]
        1 <= i < rt.tour.activities@.len() - 1 && entry.0 == rt.tour.activities@[i].job->0
            && entry.1 as int == window_saving(p, rt, i)
}

/// Whether the interior position `i` of the route's tour has an entry with
/// its job and window saving.
pub open spec fn position_listed(
    p: Problem,
    rt: crate::model::Route,
    entries: Seq<(usize, i64)>,
    i: int,
) -> bool {
    exists|e: int|
        #![trigger entries[e]]
        0 <= e < entries.len() && entries[e].0 == rt.tour.activities@[i].job->0 && entries[e].1
            as int == window_saving(p, rt, i)
}

/// Whether `entries` are exactly the interior jobs of route `rt` with
/// their window savings: every entry names an interior position, every
/// interior position has an entry, and no job appears twice.
pub open spec fn savings_entries_of(
    p: Problem,
    rt: crate::model::Route,
    entries: Seq<(usize, i64)>,
) -> bool {
    &&& forall|e: int|
        0 <= e < entries.len() ==> entry_is_window(p, rt, #[trigger] entries[e])
    &&& forall|i: int|
        #![trigger rt.tour.activities@[i]]
        1 <= i < rt.tour.activities@.len() - 1 ==> position_listed(p, rt, entries, i)
    &&& forall|a: int, b: int|
        #![trigger entries[a], entries[b]]
        0 <= a < b < entries.len() ==> entries[a].0 != entries[b].0
}

/// Whether the two entries' jobs stand at interior positions of the
/// route's tour in that order: the documented tie-break among equal
/// savings.
pub open spec fn tie_in_position_order(
    p: Problem,
    rt: crate::model::Route,
    e1: (usize, i64),
    e2: (usize, i64),
) -> bool {
    exists|i1: int, i2: int|
        #![trigger rt.tour.activities@[i1], rt.tour.activities@[i2]]
        1 <= i1 < i2 < rt.tour.activities@.len() - 1 && e1.0 == rt.tour.activities@[i1].job->0
            && e2.0 == rt.tour.activities@[i2].job->0
}

/// A sorted rearrangement of the exact per-position savings entries still
/// lists every interior job exactly once with its window saving.
proof fn lemma_entries_from_acc(
    p: Problem,
    rt: crate::model::Route,
    acc: Seq<(usize, i64)>,
    sorted: Seq<(usize, i64)>,
)
    requires
        rt.tour.activities@.len() >= 3 ==> acc.len() == rt.tour.activities@.len() - 2,
        rt.tour.activities@.len() < 3 ==> acc.len() == 0,
        forall|e: int|
            0 <= e < acc.len() ==> (#[trigger] acc[e]).0 == rt.tour.activities@[e + 1].job->0
                && acc[e].1 as int == window_saving(p, rt, e + 1),
        forall|a: int, b: int|
            #![trigger acc[a], acc[b]]
            0 <= a < b < acc.len() ==> acc[a].0 != acc[b].0,
        sorted.len() == acc.len(),
        forall|k: int| 0 <= k < sorted.len() ==> acc.contains(#[trigger] sorted[k]),
        forall|k: int| 0 <= k < acc.len() ==> sorted.contains(#[trigger] acc[k]),
        forall|a: int, b: int|
            #![trigger sorted[a], sorted[b]]
            0 <= a < b < sorted.len() ==> sorted[a].0 != sorted[b].0,
    ensures
        savings_entries_of(p, rt, sorted),
{
    assert forall|e: int|
        0 <= e < sorted.len() implies entry_is_window(p, rt, #[trigger] sorted[e]) by {
        let x = choose|x: int| 0 <= x < acc.len() && acc[x] == sorted[e];
        assert(1 <= x + 1 < rt.tour.activities@.len() - 1 && sorted[e].0 == rt.tour.activities@[
            x + 1
        ].job->0 && sorted[e].1 as int == window_saving(p, rt, x + 1));
    }
    assert forall|i: int|
        #![trigger rt.tour.activities@[i]]
        1 <= i < rt.tour.activities@.len() - 1 implies position_listed(p, rt, sorted, i) by {
        assert(acc[i - 1].0 == rt.tour.activities@[i].job->0);
        assert(sorted.contains(acc[i - 1]));
        let e = choose|e: int| 0 <= e < sorted.len() && sorted[e] == acc[i - 1];
        assert(0 <= e < sorted.len() && sorted[e].0 == rt.tour.activities@[i].job->0
            && sorted[e].1 as int == window_saving(p, rt, i));
    }
}

/// Cost savings of one route: for every window of three consecutive
/// activities the detour through the middle one, one entry per interior
/// job, sorted descending.
#[verifier::rlimit(100)]
fn route_cost_savings(insertion_ctx: &InsertionContext, ri: usize) -> (sorted: Vec<(usize, i64)>)
    requires
        wf_insertion(*insertion_ctx),
        savings_ready(insertion_ctx.solution),
        ri < insertion_ctx.solution.routes@.len(),
    ensures
        forall|a: int, b: int|
            #![trigger sorted@[a], sorted@[b]]
            0 <= a < b < sorted@.len() ==> sorted@[a].1 >= sorted@[b].1,
        forall|e: int|
            0 <= e < sorted@.len() ==> {
                &&& (#[trigger] sorted@[e]).0 < insertion_ctx.problem.jobs@.len()
                &&& tour_has_job(
                    insertion_ctx.solution.routes@[ri as int].tour,
                    sorted@[e].0,
                )
            },
        savings_entries_of(
            insertion_ctx.problem,
            insertion_ctx.solution.routes@[ri as int],
            sorted@,
        ),
        forall|a: int, b: int|
            #![trigger sorted@[a], sorted@[b]]
            0 <= a < b < sorted@.len() && sorted@[a].1 == sorted@[b].1 ==> tie_in_position_order(
                insertion_ctx.problem,
                insertion_ctx.solution.routes@[ri as int],
                sorted@[a],
                sorted@[b],
            ),
{
    let problem = &insertion_ctx.problem;
    let solution = &insertion_ctx.solution;
    let tour_len = solution.routes[ri].tour.activities.len();
    let profile = solution.routes[ri].profile;
    let mut acc: Vec<(usize, i64)> = Vec::new();
    if tour_len >= 3 {
        let mut i: usize = 1;
        while i < tour_len - 1
            invariant
                1 <= i <= tour_len - 1,
                ri < solution.routes@.len(),
                tour_len == solution.routes@[ri as int].tour.activities@.len(),
                3 <= tour_len,
                wf_insertion(*insertion_ctx),
                savings_ready(*solution),
                problem == &insertion_ctx.problem,
                solution == &insertion_ctx.solution,
                profile == solution.routes@[ri as int].profile,
                forall|e: int|
                    0 <= e < acc@.len() ==> {
                        &&& (#[trigger] acc@[e]).0 < problem.jobs@.len()
                        &&& tour_has_job(solution.routes@[ri as int].tour, acc@[e].0)
                    },
                acc@.len() == i - 1,
                forall|e: int|
                    0 <= e < acc@.len() ==> (#[trigger] acc@[e]).0 == solution.routes@[
                        ri as int
                    ].tour.activities@[e + 1].job->0 && acc@[e].1 as int == window_saving(
                        *problem,
                        solution.routes@[ri as int],
                        e + 1,
                    ),
            decreases tour_len - 1 - i,
        {
            let prev = solution.routes[ri].tour.activities[i - 1];
            let mid = solution.routes[ri].tour.activities[i];
            let next = solution.routes[ri].tour.activities[i + 1];
            match mid.job {
                Some(jb) => {
                    let c1 = problem.cost(profile, prev.location, mid.location);
                    let c2 = problem.cost(profile, mid.location, next.location);
                    let c3 = problem.cost(profile, prev.location, next.location);
                    let savings = c1 + c2 - c3;
                    acc.push((jb, savings));
                },
                None => {
                    proof {
                        assert(false);
                    }
                },
            }
            i = i + 1;
        }
    }
    proof {
        assert forall|a: int, b: int|
            #![trigger acc@[a], acc@[b]]
            0 <= a < b < acc@.len() implies acc@[a].0 != acc@[b].0 by {
            let acts = solution.routes@[ri as int].tour.activities@;
            assert(acts[a + 1].job is Some);
            assert(acts[a + 1].job != acts[b + 1].job);
        }
    }
    let sorted = sort_savings_desc(acc);
    proof {
        lemma_entries_from_acc(
            *problem,
            solution.routes@[ri as int],
            acc@,
            sorted@,
        );
        assert(*problem == insertion_ctx.problem);
        assert(solution.routes@[ri as int] == insertion_ctx.solution.routes@[ri as int]);
        assert forall|e: int|
            0 <= e < sorted@.len() implies {
            &&& (#[trigger] sorted@[e]).0 < problem.jobs@.len()
            &&& tour_has_job(solution.routes@[ri as int].tour, sorted@[e].0)
        } by {
            let i2 = choose|i2: int| 0 <= i2 < acc@.len() && acc@[i2] == sorted@[e];
            assert(acc@[i2].0 < problem.jobs@.len());
        }
        assert forall|a: int, b: int|
            #![trigger sorted@[a], sorted@[b]]
            0 <= a < b < sorted@.len() && sorted@[a].1 == sorted@[b].1
                implies tie_in_position_order(
            *problem,
            solution.routes@[ri as int],
            sorted@[a],
            sorted@[b],
        ) by {
            assert(tie_order(acc@, sorted@[a], sorted@[b]));
            let (ia, ib) = choose|ia: int, ib: int|
                0 <= ia < ib < acc@.len() && #[trigger] acc@[ia] == sorted@[a]
                    && #[trigger] acc@[ib] == sorted@[b];
            assert(acc@[ia].0 == solution.routes@[ri as int].tour.activities@[ia + 1].job->0);
            assert(acc@[ib].0 == solution.routes@[ri as int].tour.activities@[ib + 1].job->0);
        }
    }
    sorted
}

/// Cost savings of removing each interior job of each route, computed
/// independently per route.
pub fn get_routes_cost_savings(insertion_ctx: &InsertionContext) -> (r: Vec<
    (usize, Vec<(usize, i64)>),
>)
    requires
        wf_insertion(*insertion_ctx),
        savings_ready(insertion_ctx.solution),
    ensures
        r@.len() == insertion_ctx.solution.routes@.len(),
        forall|k: int| 0 <= k < r@.len() ==> (#[trigger] r@[k].0) == k,
        forall|k: int, a: int, b: int|
            #![trigger r@[k].1@[a], r@[k].1@[b]]
            0 <= k < r@.len() && 0 <= a < b < r@[k].1@.len() ==> r@[k].1@[a].1 >= r@[k].1@[b].1,
        forall|k: int, e: int|
            0 <= k < r@.len() && 0 <= e < r@[k].1@.len() ==> {
                &&& (#[trigger] r@[k].1@[e]).0 < insertion_ctx.problem.jobs@.len()
                &&& tour_has_job(
                    insertion_ctx.solution.routes@[k].tour,
                    r@[k].1@[e].0,
                )
            },
        forall|k: int|
            0 <= k < r@.len() ==> savings_entries_of(
                insertion_ctx.problem,
                insertion_ctx.solution.routes@[k],
                (#[trigger] r@[k]).1@,
            ),
        forall|k: int, a: int, b: int|
            #![trigger r@[k].1@[a], r@[k].1@[b]]
            0 <= k < r@.len() && 0 <= a < b < r@[k].1@.len() && r@[k].1@[a].1 == r@[k].1@[b].1
                ==> tie_in_position_order(
                insertion_ctx.problem,
                insertion_ctx.solution.routes@[k],
                r@[k].1@[a],
                r@[k].1@[b],
            ),
{
    let n = insertion_ctx.solution.routes.len();
    let mut r: Vec<(usize, Vec<(usize, i64)>)> = Vec::new();
    let mut ri: usize = 0;
    while ri < n
        invariant
            ri <= n,
            n == insertion_ctx.solution.routes@.len(),
            wf_insertion(*insertion_ctx),
            savings_ready(insertion_ctx.solution),
            r@.len() == ri,
            forall|k: int| 0 <= k < r@.len() ==> (#[trigger] r@[k].0) == k,
            forall|k: int, a: int, b: int|
                #![trigger r@[k].1@[a], r@[k].1@[b]]
                0 <= k < r@.len() && 0 <= a < b < r@[k].1@.len() ==> r@[k].1@[a].1
                    >= r@[k].1@[b].1,
            forall|k: int, e: int|
                0 <= k < r@.len() && 0 <= e < r@[k].1@.len() ==> {
                    &&& (#[trigger] r@[k].1@[e]).0 < insertion_ctx.problem.jobs@.len()
                    &&& tour_has_job(insertion_ctx.solution.routes@[k].tour, r@[k].1@[e].0)
                },
            forall|k: int|
                0 <= k < r@.len() ==> savings_entries_of(
                    insertion_ctx.problem,
                    insertion_ctx.solution.routes@[k],
                    (#[trigger] r@[k]).1@,
                ),
            forall|k: int, a: int, b: int|
                #![trigger r@[k].1@[a], r@[k].1@[b]]
                0 <= k < r@.len() && 0 <= a < b < r@[k].1@.len() && r@[k].1@[a].1
                    == r@[k].1@[b].1 ==> tie_in_position_order(
                    insertion_ctx.problem,
                    insertion_ctx.solution.routes@[k],
                    r@[k].1@[a],
                    r@[k].1@[b],
                ),
        decreases n - ri,
    {
        let sorted = route_cost_savings(insertion_ctx, ri);
        r.push((ri, sorted));
        ri = ri + 1;
    }
    r
}

/// A uniformly random permutation of `0 .. n`, drawn by repeated swaps from
/// the shared random stream.
fn shuffled_indices(n: usize, random: &mut DefaultRandom) -> (r: Vec<usize>)
    requires
        n < 0x10000,
    ensures
        r@.len() == n,
        forall|k: int| 0 <= k < r@.len() ==> #[trigger] r@[k] < n,
        r@.no_duplicates(),
        forall|v: usize| (v as int) < n ==> r@.contains(v),
{
    let mut r: Vec<usize> = Vec::new();
    let mut i: usize = 0;
    while i < n
        invariant
            i <= n,
            r@.len() == i,
            forall|k: int| 0 <= k < r@.len() ==> #[trigger] r@[k] == k,
        decreases n - i,
    {
        r.push(i);
        i = i + 1;
    }
    proof {
        assert forall|a: int, b: int| 0 <= a < b < r@.len() implies r@[a] != r@[b] by {}
        assert forall|v: usize| (v as int) < n implies r@.contains(v) by {
            assert(r@[v as int] == v);
        }
    }
    let mut j: usize = n;
    while j > 1
        invariant
            j <= n,
            r@.len() == n,
            n < 0x10000,
            forall|k: int| 0 <= k < r@.len() ==> #[trigger] r@[k] < n,
            r@.no_duplicates(),
            forall|v: usize| (v as int) < n ==> r@.contains(v),
        decreases j,
    {
        j = j - 1;
        let k = random.uniform_int(0, j);
        let a = r[j];
        let b = r[k];
        let ghost pre = r@;
        r[j] = b;
        r[k] = a;
        proof {
            assert forall|p1: int, p2: int| 0 <= p1 < p2 < r@.len() implies r@[p1] != r@[p2] by {
                let q1: int = if p1 == j { k as int } else if p1 == k { j as int } else { p1 };
                let q2: int = if p2 == j { k as int } else if p2 == k { j as int } else { p2 };
                assert(r@[p1] == pre[q1]);
                assert(r@[p2] == pre[q2]);
            }
            assert forall|v: usize| (v as int) < n implies r@.contains(v) by {
                assert(pre.contains(v));
                let idx = choose|idx: int| 0 <= idx < pre.len() && pre[idx] == v;
                assert(pre[idx] == v);
                if idx == j {
                    assert(r@[k as int] == v);
                } else if idx == k {
                    assert(r@[j as int] == v);
                } else {
                    assert(r@[idx] == v);
                }
            }
        }
    }
    r
}

/// Whether the job is removable: neither locked nor already unassigned.
pub open spec fn removable(locked: Seq<usize>, unassigned: Seq<(usize, i32)>, j: usize) -> bool {
    &&& !locked.contains(j)
    &&& !(exists|k: int| 0 <= k < unassigned.len() && unassigned[k].0 == j)
}

/// The job of the first removable entry after skipping `skip` removable
/// ones, walking the entries from the front.
pub open spec fn nth_removable_spec(
    entries: Seq<(usize, i64)>,
    locked: Seq<usize>,
    unassigned: Seq<(usize, i32)>,
    skip: int,
) -> Option<usize>
    decreases entries.len(),
{
    if entries.len() == 0 {
        None
    } else if removable(locked, unassigned, entries[0].0) {
        if skip == 0 {
            Some(entries[0].0)
        } else {
            nth_removable_spec(entries.skip(1), locked, unassigned, skip - 1)
        }
    } else {
        nth_removable_spec(entries.skip(1), locked, unassigned, skip)
    }
}

/// The first removable savings entry after skipping `skip` removable ones:
/// a job neither locked nor already unassigned.
fn nth_removable(
    entries: &Vec<(usize, i64)>,
    locked: &Vec<usize>,
    unassigned: &Vec<(usize, i32)>,
    skip: usize,
) -> (r: Option<usize>)
    ensures
        r == nth_removable_spec(entries@, locked@, unassigned@, skip as int),
        r matches Some(j) ==> {
            &&& !locked@.contains(j)
            &&& !(exists|k: int| 0 <= k < unassigned@.len() && unassigned@[k].0 == j)
            &&& exists|e: int| 0 <= e < entries@.len() && (#[trigger] entries@[e]).0 == j
        },
{
    let mut seen: usize = 0;
    let mut e: usize = 0;
    proof {
        assert(entries@.skip(0) =~= entries@);
    }
    while e < entries.len()
        invariant
            e <= entries@.len(),
            seen <= e,
            seen <= skip,
            nth_removable_spec(entries@, locked@, unassigned@, skip as int)
                == nth_removable_spec(
                entries@.skip(e as int),
                locked@,
                unassigned@,
                skip - seen,
            ),
        decreases entries@.len() - e,
    {
        let job = entries[e].0;
        proof {
            assert(entries@.skip(e as int)[0] == entries@[e as int]);
            assert(entries@.skip(e as int).skip(1) =~= entries@.skip(e as int + 1));
        }
        if !pool_contains(locked, job) && !unassigned_contains(unassigned, job) {
            if seen == skip {
                proof {
                    assert((#[trigger] entries@[e as int]).0 == job);
                    assert(removable(locked@, unassigned@, job));
                }
                return Some(job);
            }
            seen = seen + 1;
        }
        e = e + 1;
    }
    proof {
        assert(entries@.skip(entries@.len() as int) =~= Seq::<(usize, i64)>::empty());
    }
    None
}

/// Inputs on which a worst-job-removal call must remove something: no
/// random skip, at least one job per seed, free pools, and some tour long
/// enough to yield a savings window.
pub open spec fn worst_forced(w: WorstJobRemoval, s: SolutionContext) -> bool {
    &&& w.worst_skip == 0
    &&& w.min >= 1
    &&& s.locked@.len() == 0
    &&& s.unassigned@.len() == 0
    &&& exists|rt: int|
        0 <= rt < s.routes@.len() && (#[trigger] s.routes@[rt]).tour.activities@.len() >= 3
}

impl WorstJobRemoval {
    /// Runs one worst-job-removal call: ranks each route's jobs by cost
    /// savings, walks the routes in a random order, removes the best
    /// removable job after a random skip together with up to a drawn
    /// number of its neighbors, and stops once the threshold of removed
    /// jobs is passed.  Every removed job is appended to the required pool.
    #[verifier::rlimit(100)]
    pub fn run(&self, insertion_ctx: InsertionContext) -> (r: InsertionContext)
        requires
            wf_worst(*self),
            wf_insertion(insertion_ctx),
            savings_ready(insertion_ctx.solution),
        ensures
            wf_insertion(r),
            r.problem == insertion_ctx.problem,
            ruin_outcome(
                insertion_ctx.solution,
                r.solution,
                removed_of(insertion_ctx.solution, r.solution),
            ),
            r.solution.required@.len() <= insertion_ctx.solution.required@.len() + self.threshold
                + self.max,
            no_jobs_anywhere(insertion_ctx.solution) ==> r.solution.routes@
                == insertion_ctx.solution.routes@ && r.solution.required@
                == insertion_ctx.solution.required@,
            (forall|rt: int|
                0 <= rt < insertion_ctx.solution.routes@.len()
                    ==> (#[trigger] insertion_ctx.solution.routes@[rt]).tour.activities@.len()
                    < 3) ==> r.solution.routes@ == insertion_ctx.solution.routes@
                && r.solution.required@ == insertion_ctx.solution.required@,
            worst_forced(*self, insertion_ctx.solution) ==> removed_of(
                insertion_ctx.solution,
                r.solution,
            ).len() >= 1,
    {
        let mut ctx = insertion_ctx;
        let ghost old_sol = ctx.solution;
        let ghost prob = ctx.problem;
        let route_jobs = get_route_jobs(&ctx.solution, &ctx.problem);
        let routes_savings = get_routes_cost_savings(&ctx);
        proof {
            assert forall|k2: int|
                0 <= k2 < routes_savings@.len() && (#[trigger] routes_savings@[k2]).1@.len() > 0
                    implies old_sol.routes@[k2].tour.activities@.len() >= 3 by {
                assert(entry_is_window(prob, old_sol.routes@[k2], routes_savings@[k2].1@[0]));
                let i = choose|i: int|
                    #![trigger old_sol.routes@[k2].tour.activities@[i]]
                    1 <= i < old_sol.routes@[k2].tour.activities@.len() - 1
                        && routes_savings@[k2].1@[0].0 == old_sol.routes@[
                        k2
                    ].tour.activities@[i].job->0 && routes_savings@[k2].1@[0].1 as int
                        == window_saving(prob, old_sol.routes@[k2], i);
            }
        }
        let perm = shuffled_indices(routes_savings.len(), &mut ctx.random);
        let mut removed: Vec<usize> = Vec::new();
        let mut pi: usize = 0;
        while pi < perm.len() && removed.len() <= self.threshold
            invariant
                wf_worst(*self),
                wf_problem(prob),
                ctx.problem == prob,
                wf_solution(old_sol, prob),
                wf_solution(ctx.solution, prob),
                ruin_core(old_sol, ctx.solution, removed@),
                ctx.solution.required@ == old_sol.required@,
                pi <= perm@.len(),
                perm@.len() == routes_savings@.len(),
                routes_savings@.len() == old_sol.routes@.len(),
                forall|k: int| 0 <= k < perm@.len() ==> #[trigger] perm@[k] < perm@.len(),
                forall|k: int, e: int|
                    0 <= k < routes_savings@.len() && 0 <= e < routes_savings@[k].1@.len() ==> {
                        &&& (#[trigger] routes_savings@[k].1@[e]).0 < prob.jobs@.len()
                        &&& tour_has_job(old_sol.routes@[k].tour, routes_savings@[k].1@[e].0)
                    },
                route_jobs@.len() == prob.jobs@.len(),
                forall|j: int|
                    0 <= j < route_jobs@.len() ==> ((#[trigger] route_jobs@[j]) matches Some(rx)
                        ==> rx < old_sol.routes@.len()),
                removed@.len() <= self.threshold + self.max,
                no_jobs_anywhere(old_sol) ==> ctx.solution.routes@ == old_sol.routes@
                    && removed@.len() == 0,
                forall|k2: int|
                    0 <= k2 < routes_savings@.len() && (#[trigger] routes_savings@[k2]).1@.len()
                        > 0 ==> old_sol.routes@[k2].tour.activities@.len() >= 3,
                (forall|rt: int|
                    0 <= rt < old_sol.routes@.len() ==> (
                    #[trigger] old_sol.routes@[rt]).tour.activities@.len() < 3)
                    ==> ctx.solution.routes@ == old_sol.routes@ && removed@.len() == 0,
                forall|k2: int|
                    0 <= k2 < routes_savings@.len() ==> savings_entries_of(
                        prob,
                        old_sol.routes@[k2],
                        (#[trigger] routes_savings@[k2]).1@,
                    ),
                forall|j: int|
                    0 <= j < route_jobs@.len() ==> ((#[trigger] route_jobs@[j]) matches Some(rx)
                        ==> tour_has_job(old_sol.routes@[rx as int].tour, j as usize)),
                forall|j: int|
                    0 <= j < route_jobs@.len() ==> ((#[trigger] route_jobs@[j]) is None
                        ==> !assigned_in(old_sol, j as usize)),
                forall|v: usize| (v as int) < perm@.len() ==> perm@.contains(v),
                worst_forced(*self, old_sol) ==> (removed@.len() >= 1 || forall|x: int|
                    0 <= x < pi ==> old_sol.routes@[(#[trigger] perm@[x]) as int].tour.activities@.len()
                        < 3),
            decreases perm@.len() - pi,
        {
            let k = perm[pi];
            let drawn = ctx.random.uniform_int(0, self.worst_skip);
            let elen = routes_savings[k].1.len();
            let skip = if elen < drawn {
                elen
            } else {
                drawn
            };
            let ghost removed_at_seed = removed@.len();
            match nth_removable(
                &routes_savings[k].1,
                &ctx.solution.locked,
                &ctx.solution.unassigned,
                skip,
            ) {
                Some(job) => {
                    proof {
                        let e = choose|e: int|
                            0 <= e < routes_savings@[k as int].1@.len() && (
                            #[trigger] routes_savings@[k as int].1@[e]).0 == job;
                        assert(tour_has_job(old_sol.routes@[k as int].tour, job));
                        assert(job < prob.jobs@.len());
                        assert(routes_savings@[k as int].1@.len() > 0);
                        if forall|rt: int|
                            0 <= rt < old_sol.routes@.len() ==> (
                            #[trigger] old_sol.routes@[rt]).tour.activities@.len() < 3 {
                            assert(old_sol.routes@[k as int].tour.activities@.len() >= 3);
                            assert(false);
                        }
                    }
                    let remove_n = ctx.random.uniform_int(self.min, self.max);
                    let profile = ctx.solution.routes[k].profile;
                    let neighbors = ctx.problem.neighbors_of(profile, job);
                    let mut chain: Vec<usize> = Vec::new();
                    chain.push(job);
                    let mut nb: usize = 0;
                    while nb < neighbors.len()
                        invariant
                            nb <= neighbors@.len(),
                            forall|x: int|
                                0 <= x < neighbors@.len() ==> #[trigger] neighbors@[x]
                                    < prob.jobs@.len(),
                            forall|x: int|
                                0 <= x < chain@.len() ==> #[trigger] chain@[x] < prob.jobs@.len(),
                            chain@.len() >= 1,
                            chain@[0] == job,
                        decreases neighbors@.len() - nb,
                    {
                        chain.push(neighbors[nb]);
                        nb = nb + 1;
                    }
                    let ghost must_remove = worst_forced(*self, old_sol) && removed_at_seed == 0;
                    proof {
                        assert(assigned_in(old_sol, job));
                    }
                    let mut taken: usize = 0;
                    let mut ni: usize = 0;
                    while ni < chain.len() && taken < remove_n
                        invariant
                            wf_worst(*self),
                            wf_problem(prob),
                            ctx.problem == prob,
                            wf_solution(old_sol, prob),
                            wf_solution(ctx.solution, prob),
                            ruin_core(old_sol, ctx.solution, removed@),
                            ctx.solution.required@ == old_sol.required@,
                            ni <= chain@.len(),
                            taken <= remove_n,
                            remove_n <= self.max,
                            forall|x: int|
                                0 <= x < chain@.len() ==> #[trigger] chain@[x] < prob.jobs@.len(),
                            route_jobs@.len() == prob.jobs@.len(),
                            forall|j: int|
                                0 <= j < route_jobs@.len() ==> ((#[trigger] route_jobs@[j])
                                    matches Some(rx) ==> rx < old_sol.routes@.len()),
                            removed@.len() - removed_at_seed <= taken,
                            removed_at_seed <= removed@.len(),
                            removed_at_seed <= self.threshold,
                            taken <= ni,
                            ctx.solution.routes@.len() == old_sol.routes@.len(),
                            !no_jobs_anywhere(old_sol),
                            chain@.len() >= 1,
                            chain@[0] == job,
                            assigned_in(old_sol, job),
                            self.min <= remove_n,
                            forall|j: int|
                                0 <= j < route_jobs@.len() ==> ((#[trigger] route_jobs@[j])
                                    matches Some(rx) ==> tour_has_job(
                                    old_sol.routes@[rx as int].tour,
                                    j as usize,
                                )),
                            forall|j: int|
                                0 <= j < route_jobs@.len() ==> ((#[trigger] route_jobs@[j])
                                    is None ==> !assigned_in(old_sol, j as usize)),
                            must_remove == (worst_forced(*self, old_sol) && removed_at_seed == 0),
                            must_remove ==> (ni == 0 || removed@.len() >= 1),
                        decreases chain@.len() - ni,
                    {
                        let jn = chain[ni];
                        proof {
                            if must_remove && ni == 0 {
                                assert(jn == job);
                                assert(ctx.solution.locked@.len() == 0);
                                assert(ctx.solution.unassigned@.len() == 0);
                                assert(!ctx.solution.locked@.contains(jn));
                            }
                        }
                        if !pool_contains(&ctx.solution.locked, jn) && !unassigned_contains(
                            &ctx.solution.unassigned,
                            jn,
                        ) {
                            taken = taken + 1;
                            match route_jobs[jn] {
                                Some(rj) => {
                                    proof {
                                        if must_remove && ni == 0 {
                                            assert(tour_has_job(
                                                old_sol.routes@[rj as int].tour,
                                                jn,
                                            ));
                                            assert(removed@.len() == 0);
                                            assert(!removed@.contains(jn));
                                            assert(tour_has_job(
                                                ctx.solution.routes@[rj as int].tour,
                                                jn,
                                            ));
                                        }
                                    }
                                    let _detached = crate::model::remove_one_job(
                                        &mut ctx.solution,
                                        &mut removed,
                                        rj,
                                        jn,
                                        Ghost(old_sol),
                                        Ghost(prob),
                                    );
                                    proof {
                                        if must_remove && ni == 0 {
                                            assert(_detached);
                                            assert(removed@.len() >= 1);
                                        }
                                    }
                                },
                                None => {
                                    proof {
                                        if must_remove && ni == 0 {
                                            assert(!assigned_in(old_sol, jn));
                                            assert(false);
                                        }
                                    }
                                },
                            }
                        } else {
                            proof {
                                if must_remove && ni == 0 {
                                    assert(false);
                                }
                            }
                        }
                        ni = ni + 1;
                    }
                    proof {
                        if must_remove {
                            assert(removed@.len() >= 1);
                        }
                    }
                },
                None => {
                    proof {
                        if worst_forced(*self, old_sol) && removed@.len() == 0
                            && old_sol.routes@[k as int].tour.activities@.len() >= 3 {
                            assert(drawn == 0);
                            assert(position_listed(
                                prob,
                                old_sol.routes@[k as int],
                                routes_savings@[k as int].1@,
                                1,
                            )) by {
                                assert(1 <= 1 < old_sol.routes@[
                                    k as int
                                ].tour.activities@.len() - 1);
                            }
                            let e = choose|e: int|
                                #![trigger routes_savings@[k as int].1@[e]]
                                0 <= e < routes_savings@[k as int].1@.len()
                                    && routes_savings@[k as int].1@[e].0 == old_sol.routes@[
                                    k as int
                                ].tour.activities@[1].job->0 && routes_savings@[k as int].1@[e].1
                                    as int == window_saving(prob, old_sol.routes@[k as int], 1);
                            assert(routes_savings@[k as int].1@.len() > 0);
                            assert(skip == 0);
                            assert(removable(
                                ctx.solution.locked@,
                                ctx.solution.unassigned@,
                                routes_savings@[k as int].1@[0].0,
                            ));
                            assert(nth_removable_spec(
                                routes_savings@[k as int].1@,
                                ctx.solution.locked@,
                                ctx.solution.unassigned@,
                                0,
                            ) is Some);
                            assert(false);
                        }
                    }
                },
            }
            pi = pi + 1;
        }
        crate::model::push_required(&mut ctx.solution, &removed, Ghost(old_sol), Ghost(prob));
        proof {
            assert(removed_of(old_sol, ctx.solution) =~= removed@) by {
                assert((old_sol.required@ + removed@).skip(old_sol.required@.len() as int)
                    =~= removed@);
            }
            if no_jobs_anywhere(old_sol) {
                assert(ctx.solution.required@ =~= old_sol.required@);
            }
            if forall|rt: int|
                0 <= rt < old_sol.routes@.len() ==> (
                #[trigger] old_sol.routes@[rt]).tour.activities@.len() < 3 {
                assert(ctx.solution.required@ =~= old_sol.required@);
            }
            if worst_forced(*self, old_sol) && removed@.len() == 0 {
                let rt = choose|rt: int|
                    0 <= rt < old_sol.routes@.len() && (
                    #[trigger] old_sol.routes@[rt]).tour.activities@.len() >= 3;
                assert(perm@.contains(rt as usize));
                let x = choose|x: int| 0 <= x < perm@.len() && perm@[x] == rt as usize;
                assert(old_sol.routes@[(perm@[x]) as int].tour.activities@.len() < 3);
                assert(false);
            }
        }
        ctx
    }
}

} // verus!
