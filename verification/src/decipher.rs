//! Adjacency-matrix representation of a solution: an index of every
//! activity a solution can contain (terminal stops of the fleet's actor
//! details, and each candidate stop of each job), plus the machinery that
//! matches a concrete tour activity back to its index entry.

use vstd::prelude::*;

use crate::model::Activity;
use crate::model::ActorDetail;
use crate::model::JobDef;
use crate::model::Place;
use crate::model::Problem;
use crate::model::SingleJob;
use crate::model::SolutionContext;
use crate::model::pool_contains;
use crate::model::wf_problem;

verus! {

/// One entry of the activity index: either a job stop, as the tuple of
/// job id, sub-job index, place index and time-window index, or a terminal
/// stop of an actor detail at a location.
#[derive(Clone, Copy, Debug, PartialEq, Eq, Structural)]
pub enum ActivityInfo {
    Job { job: usize, single_idx: usize, place_idx: usize, tw_idx: usize },
    Terminal { detail: ActorDetail, location: usize },
}

/// The sub-jobs a job schedules: one for a single job, the ordered group
/// for a multi job.
pub open spec fn singles_of(jd: JobDef) -> Seq<SingleJob> {
    match jd {
        JobDef::Single(s) => seq![s],
        JobDef::Multi(v) => v@,
    }
}

/// Whether `(j, si, pi, ti)` names an existing time window of an existing
/// place of an existing sub-job of an existing job.
pub open spec fn job_info_valid(p: Problem, j: int, si: int, pi: int, ti: int) -> bool {
    &&& 0 <= j < p.jobs@.len()
    &&& 0 <= si < singles_of(p.jobs@[j]).len()
    &&& 0 <= pi < singles_of(p.jobs@[j])[si].places@.len()
    &&& 0 <= ti < singles_of(p.jobs@[j])[si].places@[pi].times@.len()
}

/// Whether the place, at its `ti`-th time window, matches the activity's
/// location, duration and time window.
pub open spec fn place_time_matches(a: Activity, pl: Place, ti: int) -> bool {
    &&& pl.location == Some(a.location)
    &&& pl.duration == a.duration
    &&& 0 <= ti < pl.times@.len()
    &&& pl.times@[ti] == (a.time_start, a.time_end)
}

/// Number of sub-jobs of a job.
pub fn single_count(jd: &JobDef) -> (r: usize)
    ensures
        r == singles_of(*jd).len(),
{
    match jd {
        JobDef::Single(_) => 1,
        JobDef::Multi(v) => v.len(),
    }
}

/// Whether `x` is the first position of `actors` holding `d`.
pub open spec fn first_index_of(actors: Seq<ActorDetail>, d: ActorDetail, x: int) -> bool {
    &&& 0 <= x < actors.len()
    &&& actors[x] == d
    &&& forall|y: int| 0 <= y < x ==> actors[y] != d
}

/// Whether `d1`'s first occurrence in `actors` precedes `d2`'s.
pub open spec fn earlier_first_occurrence(
    actors: Seq<ActorDetail>,
    d1: ActorDetail,
    d2: ActorDetail,
) -> bool {
    exists|ia: int, ib: int|
        ia < ib && #[trigger] first_index_of(actors, d1, ia) && #[trigger] first_index_of(
            actors,
            d2,
            ib,
        )
}

/// The unique actor details of the fleet, in order of first occurrence.
pub fn get_unique_actor_details(actors: &Vec<ActorDetail>) -> (r: Vec<ActorDetail>)
    ensures
        forall|d: ActorDetail| r@.contains(d) <==> actors@.contains(d),
        r@.no_duplicates(),
        forall|a: int, b: int|
            #![trigger r@[a], r@[b]]
            0 <= a < b < r@.len() ==> earlier_first_occurrence(actors@, r@[a], r@[b]),
{
    let mut r: Vec<ActorDetail> = Vec::new();
    let ghost mut firsts: Seq<int> = Seq::empty();
    let mut i: usize = 0;
    while i < actors.len()
        invariant
            i <= actors@.len(),
            forall|d: ActorDetail| r@.contains(d) <==> exists|x: int|
                0 <= x < i && actors@[x] == d,
            r@.no_duplicates(),
            firsts.len() == r@.len(),
            forall|a: int|
                0 <= a < r@.len() ==> #[trigger] first_index_of(actors@, r@[a], firsts[a]),
            forall|a: int, b: int|
                #![trigger firsts[a], firsts[b]]
                0 <= a < b < firsts.len() ==> firsts[a] < firsts[b],
            forall|a: int| 0 <= a < firsts.len() ==> #[trigger] firsts[a] < i,
        decreases actors@.len() - i,
    {
        let d = actors[i];
        let mut seen = false;
        let mut x: usize = 0;
        while x < r.len()
            invariant
                x <= r@.len(),
                seen <==> exists|y: int| 0 <= y < x && r@[y] == d,
            decreases r@.len() - x,
        {
            if r[x] == d {
                proof {
                    assert(0 <= x < r@.len() && r@[x as int] == d);
                }
                seen = true;
            }
            x = x + 1;
        }
        let ghost pre = r@;
        if !seen {
            r.push(d);
            proof {
                assert(!pre.contains(d));
                assert(first_index_of(actors@, d, i as int)) by {
                    assert forall|y: int| 0 <= y < i implies actors@[y] != d by {
                        if actors@[y] == d {
                            assert(pre.contains(d));
                        }
                    }
                }
                firsts = firsts.push(i as int);
                assert forall|a: int, b: int| 0 <= a < b < r@.len() implies r@[a] != r@[b] by {
                    if b == pre.len() {
                        if r@[a] == r@[b] {
                            assert(pre[a] == d);
                            assert(pre.contains(d));
                        }
                    }
                }
            }
        }
        proof {
            assert forall|d2: ActorDetail| r@.contains(d2) <==> exists|y: int|
                0 <= y < i + 1 && actors@[y] == d2 by {
                if !seen {
                    crate::model::lemma_push_contains(pre, d, d2);
                }
                if r@.contains(d2) {
                    if pre.contains(d2) {
                        let y = choose|y: int| 0 <= y < i && actors@[y] == d2;
                        assert(0 <= y < i + 1 && actors@[y] == d2);
                    } else {
                        assert(d2 == d);
                        assert(actors@[i as int] == d2);
                    }
                }
                if exists|y: int| 0 <= y < i + 1 && actors@[y] == d2 {
                    let y = choose|y: int| 0 <= y < i + 1 && actors@[y] == d2;
                    if y < i {
                        assert(pre.contains(d2));
                    } else {
                        assert(d2 == d);
                        if seen {
                            assert(pre.contains(d));
                        }
                    }
                }
            }
        }
        i = i + 1;
    }
    proof {
        assert forall|a: int, b: int|
            #![trigger r@[a], r@[b]]
            0 <= a < b < r@.len() implies earlier_first_occurrence(actors@, r@[a], r@[b]) by {
            assert(first_index_of(actors@, r@[a], firsts[a]));
            assert(first_index_of(actors@, r@[b], firsts[b]));
            assert(firsts[a] < firsts[b]);
        }
        assert forall|d: ActorDetail| r@.contains(d) <==> actors@.contains(d) by {
            if actors@.contains(d) {
                let x = choose|x: int| 0 <= x < actors@.len() && actors@[x] == d;
                assert(exists|y: int| 0 <= y < i && actors@[y] == d);
            }
            if exists|y: int| 0 <= y < i && actors@[y] == d {
                let y = choose|y: int| 0 <= y < i && actors@[y] == d;
                assert(actors@.contains(d)) by {
                    assert(actors@[y] == d);
                }
            }
        }
    }
    r
}

/// Every actor detail's terminal stops have entries in the index.
pub open spec fn fleet_terminals(p: Problem, index: Seq<ActivityInfo>) -> bool {
    forall|a: int|
        0 <= a < p.fleet@.len() ==> {
            let d = #[trigger] p.fleet@[a];
            &&& (d.start matches Some(s) ==> index.contains(ActivityInfo::Terminal { detail: d, location: s }))
            &&& (d.end matches Some(e) ==> index.contains(ActivityInfo::Terminal { detail: d, location: e }))
        }
}

/// Decodes and encodes solutions against an adjacency-matrix activity
/// index built once from the problem.
pub struct AdjacencyMatrixDecipher {
    pub problem: Problem,
    /// Entry `k` is the activity information of matrix row and column `k`.
    pub activity_index: Vec<ActivityInfo>,
}

/// Whether the index entry is a terminal of one of the first `di` details.
pub open spec fn terminal_of_prefix(details: Seq<ActorDetail>, di: int, e: ActivityInfo) -> bool {
    &&& e matches ActivityInfo::Terminal { detail, location }
    &&& (e matches ActivityInfo::Terminal { detail, location } ==> exists|x: int|
        0 <= x < di && details[x] == detail)
}

/// Strict lexicographic order on job entry coordinates.
pub open spec fn job_coords_before(e: ActivityInfo, j: int, si: int, pi: int, ti: int) -> bool {
    &&& e matches ActivityInfo::Job { job, single_idx, place_idx, tw_idx }
    &&& (e matches ActivityInfo::Job { job, single_idx, place_idx, tw_idx } ==> (job < j || (job
        == j && (single_idx < si || (single_idx == si && (place_idx < pi || (place_idx == pi
        && tw_idx < ti)))))))
}


/// Pushing a terminal of the current detail keeps the index duplicate-free
/// when no equal terminal is there yet, and keeps every entry a terminal of
/// the processed details.
proof fn lemma_push_terminal(
    details: Seq<ActorDetail>,
    di: int,
    pre: Seq<ActivityInfo>,
    d: ActorDetail,
    loc: usize,
)
    requires
        0 <= di < details.len(),
        d == details[di],
        pre.no_duplicates(),
        forall|k: int|
            0 <= k < pre.len() ==> terminal_of_prefix(details, di + 1, #[trigger] pre[k]),
        forall|k: int|
            0 <= k < pre.len() ==> #[trigger] pre[k] != (ActivityInfo::Terminal {
                detail: d,
                location: loc,
            }),
    ensures
        pre.push(ActivityInfo::Terminal { detail: d, location: loc }).no_duplicates(),
        forall|k: int|
            0 <= k < pre.push(ActivityInfo::Terminal { detail: d, location: loc }).len()
                ==> terminal_of_prefix(
                details,
                di + 1,
                #[trigger] pre.push(ActivityInfo::Terminal { detail: d, location: loc })[k],
            ),
{
    let e = ActivityInfo::Terminal { detail: d, location: loc };
    let post = pre.push(e);
    assert forall|a: int, b: int| 0 <= a < b < post.len() implies post[a] != post[b] by {
        if b == pre.len() {
            assert(post[a] == pre[a]);
        }
    }
    assert(terminal_of_prefix(details, di + 1, e));
    assert forall|k: int|
        0 <= k < post.len() implies terminal_of_prefix(details, di + 1, #[trigger] post[k]) by {
        if k < pre.len() {
            assert(post[k] == pre[k]);
        }
    }
}

/// Pushing the current job entry keeps the index duplicate-free: every job
/// entry already there stands strictly earlier in enumeration order.
proof fn lemma_push_job_entry(pre: Seq<ActivityInfo>, j: usize, si: usize, pi: usize, ti: usize)
    requires
        pre.no_duplicates(),
        forall|k: int|
            0 <= k < pre.len() ==> ((#[trigger] pre[k]) matches ActivityInfo::Job { .. }
                ==> job_coords_before(pre[k], j as int, si as int, pi as int, ti as int)),
    ensures
        pre.push(
            ActivityInfo::Job { job: j, single_idx: si, place_idx: pi, tw_idx: ti },
        ).no_duplicates(),
        forall|k: int|
            0 <= k < pre.push(
                ActivityInfo::Job { job: j, single_idx: si, place_idx: pi, tw_idx: ti },
            ).len() ==> ((#[trigger] pre.push(
                ActivityInfo::Job { job: j, single_idx: si, place_idx: pi, tw_idx: ti },
            )[k]) matches ActivityInfo::Job { .. } ==> job_coords_before(
                pre.push(ActivityInfo::Job { job: j, single_idx: si, place_idx: pi, tw_idx: ti })[
                    k
                ],
                j as int,
                si as int,
                pi as int,
                ti as int + 1,
            )),
{
    let e = ActivityInfo::Job { job: j, single_idx: si, place_idx: pi, tw_idx: ti };
    let post = pre.push(e);
    assert forall|a: int, b: int| 0 <= a < b < post.len() implies post[a] != post[b] by {
        if b == pre.len() {
            assert(post[a] == pre[a]);
            if post[a] == e {
                assert(job_coords_before(pre[a], j as int, si as int, pi as int, ti as int));
            }
        }
    }
    assert forall|k: int|
        0 <= k < post.len() implies ((#[trigger] post[k]) matches ActivityInfo::Job { .. }
        ==> job_coords_before(post[k], j as int, si as int, pi as int, ti as int + 1)) by {
        if k < pre.len() {
            assert(post[k] == pre[k]);
        }
    }
}

/// Every job entry of the index names an existing time window, and every
/// time window of every job has an entry.
pub open spec fn index_complete(p: Problem, index: Seq<ActivityInfo>) -> bool {
    &&& forall|k: int|
        0 <= k < index.len() ==> ((#[trigger] index[k]) matches ActivityInfo::Job { job, single_idx, place_idx, tw_idx }
            ==> job_info_valid(p, job as int, single_idx as int, place_idx as int, tw_idx as int))
    &&& forall|j: usize, si: usize, pi: usize, ti: usize|
        job_info_valid(p, j as int, si as int, pi as int, ti as int)
            ==> #[trigger] index.contains(ActivityInfo::Job { job: j, single_idx: si, place_idx: pi, tw_idx: ti })
}

impl AdjacencyMatrixDecipher {
    /// Builds the decipher for the given problem: terminal entries for each
    /// unique actor detail, then one entry per time window of every place
    /// of every sub-job of every job.
    #[verifier::rlimit(100)]
    pub fn new(problem: Problem) -> (r: AdjacencyMatrixDecipher)
        requires
            wf_problem(problem),
        ensures
            r.problem == problem,
            index_complete(problem, r.activity_index@),
            fleet_terminals(problem, r.activity_index@),
            r.activity_index@.no_duplicates(),
            forall|k1: int, k2: int|
                #![trigger r.activity_index@[k1], r.activity_index@[k2]]
                0 <= k1 < k2 < r.activity_index@.len() && (r.activity_index@[k1] is Job)
                    ==> (r.activity_index@[k2] is Job),
            forall|k1: int, k2: int|
                #![trigger r.activity_index@[k1], r.activity_index@[k2]]
                0 <= k1 < k2 < r.activity_index@.len() && (r.activity_index@[k1] is Job) && (
                r.activity_index@[k2] is Job) ==> job_coords_before(
                    r.activity_index@[k1],
                    r.activity_index@[k2]->Job_job as int,
                    r.activity_index@[k2]->Job_single_idx as int,
                    r.activity_index@[k2]->Job_place_idx as int,
                    r.activity_index@[k2]->Job_tw_idx as int,
                ),
    {
        let details = get_unique_actor_details(&problem.fleet);
        let mut index: Vec<ActivityInfo> = Vec::new();
        let mut di: usize = 0;
        while di < details.len()
            invariant
                di <= details@.len(),
                details@.no_duplicates(),
                index@.no_duplicates(),
                forall|k1: int, k2: int|
                    #![trigger index@[k1], index@[k2]]
                    0 <= k1 < k2 < index@.len() && (index@[k1] is Job)
                        ==> (index@[k2] is Job),
                forall|k1: int, k2: int|
                    #![trigger index@[k1], index@[k2]]
                    0 <= k1 < k2 < index@.len() && (index@[k1] is Job)
                        && (index@[k2] is Job) ==> job_coords_before(
                        index@[k1],
                        index@[k2]->Job_job as int,
                        index@[k2]->Job_single_idx as int,
                        index@[k2]->Job_place_idx as int,
                        index@[k2]->Job_tw_idx as int,
                    ),
                forall|k: int|
                    0 <= k < index@.len() ==> terminal_of_prefix(
                        details@,
                        di as int,
                        #[trigger] index@[k],
                    ),
                forall|k: int|
                    0 <= k < index@.len() ==> (#[trigger] index@[k]) matches ActivityInfo::Terminal { .. },
                forall|x: int|
                    0 <= x < di ==> {
                        let d = #[trigger] details@[x];
                        &&& (d.start matches Some(s) ==> index@.contains(
                            ActivityInfo::Terminal { detail: d, location: s },
                        ))
                        &&& (d.end matches Some(e) ==> index@.contains(
                            ActivityInfo::Terminal { detail: d, location: e },
                        ))
                    },
            decreases details@.len() - di,
        {
            let d = details[di];
            let ghost pre = index@;
            proof {
                assert forall|k: int|
                    0 <= k < pre.len() implies terminal_of_prefix(
                    details@,
                    di as int + 1,
                    #[trigger] pre[k],
                ) by {
                    assert(terminal_of_prefix(details@, di as int, pre[k]));
                }
                assert forall|k: int|
                    0 <= k < pre.len() implies ((#[trigger] pre[k]) is Terminal
                    ==> pre[k]->Terminal_detail != d) by {
                    assert(terminal_of_prefix(details@, di as int, pre[k]));
                    if pre[k] is Terminal {
                        let dd = pre[k]->Terminal_detail;
                        let x = choose|x: int| 0 <= x < di && details@[x] == dd;
                        if dd == d {
                            assert(details@[x] == details@[di as int]);
                        }
                    }
                }
            }
            match (d.start, d.end) {
                (Some(s), Some(e)) => {
                    if s == e {
                        index.push(ActivityInfo::Terminal { detail: d, location: s });
                        proof {
                            crate::model::lemma_push_preserves_contains(
                                pre,
                                ActivityInfo::Terminal { detail: d, location: s },
                            );
                            assert(index@.last() == ActivityInfo::Terminal { detail: d, location: s });
                            lemma_push_terminal(details@, di as int, pre, d, s);
                        }
                    } else {
                        index.push(ActivityInfo::Terminal { detail: d, location: s });
                        proof {
                            crate::model::lemma_push_preserves_contains(
                                pre,
                                ActivityInfo::Terminal { detail: d, location: s },
                            );
                            assert(index@.last() == ActivityInfo::Terminal { detail: d, location: s });
                            lemma_push_terminal(details@, di as int, pre, d, s);
                        }
                        let ghost pre2 = index@;
                        index.push(ActivityInfo::Terminal { detail: d, location: e });
                        proof {
                            crate::model::lemma_push_preserves_contains(
                                pre2,
                                ActivityInfo::Terminal { detail: d, location: e },
                            );
                            assert(index@.last() == ActivityInfo::Terminal { detail: d, location: e });
                            assert forall|k: int|
                                0 <= k < pre2.len() implies #[trigger] pre2[k]
                                != (ActivityInfo::Terminal { detail: d, location: e }) by {
                                if k < pre.len() {
                                    assert(pre2[k] == pre[k]);
                                } else {
                                    assert(pre2[k] == (ActivityInfo::Terminal {
                                        detail: d,
                                        location: s,
                                    }));
                                }
                            }
                            lemma_push_terminal(details@, di as int, pre2, d, e);
                        }
                    }
                },
                (None, Some(e)) => {
                    index.push(ActivityInfo::Terminal { detail: d, location: e });
                    proof {
                        crate::model::lemma_push_preserves_contains(
                            pre,
                            ActivityInfo::Terminal { detail: d, location: e },
                        );
                        assert(index@.last() == ActivityInfo::Terminal { detail: d, location: e });
                        lemma_push_terminal(details@, di as int, pre, d, e);
                    }
                },
                (Some(s), None) => {
                    index.push(ActivityInfo::Terminal { detail: d, location: s });
                    proof {
                        crate::model::lemma_push_preserves_contains(
                            pre,
                            ActivityInfo::Terminal { detail: d, location: s },
                        );
                        assert(index@.last() == ActivityInfo::Terminal { detail: d, location: s });
                        lemma_push_terminal(details@, di as int, pre, d, s);
                    }
                },
                (None, None) => {},
            }
            di = di + 1;
        }
        proof {
            assert forall|a: int| 0 <= a < problem.fleet@.len() implies {
                let d = #[trigger] problem.fleet@[a];
                &&& (d.start matches Some(st) ==> index@.contains(ActivityInfo::Terminal { detail: d, location: st }))
                &&& (d.end matches Some(en) ==> index@.contains(ActivityInfo::Terminal { detail: d, location: en }))
            } by {
                let d = problem.fleet@[a];
                assert(problem.fleet@.contains(d)) by {
                    assert(problem.fleet@[a] == d);
                }
                assert(details@.contains(d));
                let x = choose|x: int| 0 <= x < details@.len() && details@[x] == d;
                assert(details@[x] == d);
            }
            assert(fleet_terminals(problem, index@));
        }
        let n_jobs = problem.jobs.len();
        let mut j: usize = 0;
        while j < n_jobs
            invariant
                j <= n_jobs,
                n_jobs == problem.jobs@.len(),
                index@.no_duplicates(),
                forall|k1: int, k2: int|
                    #![trigger index@[k1], index@[k2]]
                    0 <= k1 < k2 < index@.len() && (index@[k1] is Job)
                        ==> (index@[k2] is Job),
                forall|k1: int, k2: int|
                    #![trigger index@[k1], index@[k2]]
                    0 <= k1 < k2 < index@.len() && (index@[k1] is Job)
                        && (index@[k2] is Job) ==> job_coords_before(
                        index@[k1],
                        index@[k2]->Job_job as int,
                        index@[k2]->Job_single_idx as int,
                        index@[k2]->Job_place_idx as int,
                        index@[k2]->Job_tw_idx as int,
                    ),
                forall|k: int|
                    0 <= k < index@.len() ==> ((#[trigger] index@[k])
                        matches ActivityInfo::Job { .. } ==> job_coords_before(
                        index@[k],
                        j as int,
                        0,
                        0,
                        0,
                    )),
                forall|k: int|
                    0 <= k < index@.len() ==> ((#[trigger] index@[k]) matches ActivityInfo::Job { job, single_idx, place_idx, tw_idx }
                        ==> job_info_valid(problem, job as int, single_idx as int, place_idx as int, tw_idx as int)),
                forall|jx: usize, si: usize, pi: usize, ti: usize|
                    jx < j && job_info_valid(problem, jx as int, si as int, pi as int, ti as int)
                        ==> #[trigger] index@.contains(ActivityInfo::Job { job: jx, single_idx: si, place_idx: pi, tw_idx: ti }),
                fleet_terminals(problem, index@),
            decreases n_jobs - j,
        {
            let jd = &problem.jobs[j];
            let n_singles = single_count(jd);
            let mut si: usize = 0;
            while si < n_singles
                invariant
                    si <= n_singles,
                    j < n_jobs,
                    n_jobs == problem.jobs@.len(),
                    n_singles == singles_of(problem.jobs@[j as int]).len(),
                    jd == &problem.jobs@[j as int],
                    index@.no_duplicates(),
                    forall|k1: int, k2: int|
                        #![trigger index@[k1], index@[k2]]
                        0 <= k1 < k2 < index@.len() && (index@[k1] is Job)
                            ==> (index@[k2] is Job),
                    forall|k1: int, k2: int|
                        #![trigger index@[k1], index@[k2]]
                        0 <= k1 < k2 < index@.len() && (index@[k1] is Job)
                            && (index@[k2] is Job) ==> job_coords_before(
                            index@[k1],
                            index@[k2]->Job_job as int,
                            index@[k2]->Job_single_idx as int,
                            index@[k2]->Job_place_idx as int,
                            index@[k2]->Job_tw_idx as int,
                        ),
                    forall|k: int|
                        0 <= k < index@.len() ==> ((#[trigger] index@[k])
                            matches ActivityInfo::Job { .. } ==> job_coords_before(
                            index@[k],
                            j as int,
                            si as int,
                            0,
                            0,
                        )),
                    forall|k: int|
                        0 <= k < index@.len() ==> ((#[trigger] index@[k])
                            matches ActivityInfo::Job { job, single_idx, place_idx, tw_idx }
                            ==> job_info_valid(
                            problem,
                            job as int,
                            single_idx as int,
                            place_idx as int,
                            tw_idx as int,
                        )),
                    forall|jx: usize, sx: usize, pi: usize, ti: usize|
                        jx < j && job_info_valid(
                            problem,
                            jx as int,
                            sx as int,
                            pi as int,
                            ti as int,
                        ) ==> #[trigger] index@.contains(ActivityInfo::Job { job: jx, single_idx: sx, place_idx: pi, tw_idx: ti }),
                    forall|sx: usize, pi: usize, ti: usize|
                        sx < si && job_info_valid(
                            problem,
                            j as int,
                            sx as int,
                            pi as int,
                            ti as int,
                        ) ==> #[trigger] index@.contains(ActivityInfo::Job { job: j, single_idx: sx, place_idx: pi, tw_idx: ti }),
                    fleet_terminals(problem, index@),
                decreases n_singles - si,
            {
                let single = match jd {
                    JobDef::Single(s) => s,
                    JobDef::Multi(v) => &v[si],
                };
                proof {
                    assert(*single == singles_of(problem.jobs@[j as int])[si as int]);
                }
                let n_places = single.places.len();
                let mut pi: usize = 0;
                while pi < n_places
                    invariant
                        pi <= n_places,
                        j < n_jobs,
                        si < n_singles,
                        n_jobs == problem.jobs@.len(),
                        n_singles == singles_of(problem.jobs@[j as int]).len(),
                        *single == singles_of(problem.jobs@[j as int])[si as int],
                        n_places == single.places@.len(),
                        index@.no_duplicates(),
                        forall|k1: int, k2: int|
                            #![trigger index@[k1], index@[k2]]
                            0 <= k1 < k2 < index@.len() && (index@[k1] is Job)
                                ==> (index@[k2] is Job),
                        forall|k1: int, k2: int|
                            #![trigger index@[k1], index@[k2]]
                            0 <= k1 < k2 < index@.len() && (index@[k1] is Job)
                                && (index@[k2] is Job) ==> job_coords_before(
                                index@[k1],
                                index@[k2]->Job_job as int,
                                index@[k2]->Job_single_idx as int,
                                index@[k2]->Job_place_idx as int,
                                index@[k2]->Job_tw_idx as int,
                            ),
                        forall|k: int|
                            0 <= k < index@.len() ==> ((#[trigger] index@[k])
                                matches ActivityInfo::Job { .. } ==> job_coords_before(
                                index@[k],
                                j as int,
                                si as int,
                                pi as int,
                                0,
                            )),
                        forall|k: int|
                            0 <= k < index@.len() ==> ((#[trigger] index@[k])
                                matches ActivityInfo::Job { job, single_idx, place_idx, tw_idx }
                                ==> job_info_valid(
                                problem,
                                job as int,
                                single_idx as int,
                                place_idx as int,
                                tw_idx as int,
                            )),
                        forall|jx: usize, sx: usize, px: usize, ti: usize|
                            jx < j && job_info_valid(
                                problem,
                                jx as int,
                                sx as int,
                                px as int,
                                ti as int,
                            ) ==> #[trigger] index@.contains(ActivityInfo::Job { job: jx, single_idx: sx, place_idx: px, tw_idx: ti }),
                        forall|sx: usize, px: usize, ti: usize|
                            sx < si && job_info_valid(
                                problem,
                                j as int,
                                sx as int,
                                px as int,
                                ti as int,
                            ) ==> #[trigger] index@.contains(ActivityInfo::Job { job: j, single_idx: sx, place_idx: px, tw_idx: ti }),
                        forall|px: usize, ti: usize|
                            px < pi && job_info_valid(
                                problem,
                                j as int,
                                si as int,
                                px as int,
                                ti as int,
                            ) ==> #[trigger] index@.contains(ActivityInfo::Job { job: j, single_idx: si, place_idx: px, tw_idx: ti }),
                        fleet_terminals(problem, index@),
                    decreases n_places - pi,
                {
                    let n_times = single.places[pi].times.len();
                    let mut ti: usize = 0;
                    while ti < n_times
                        invariant
                            ti <= n_times,
                            j < n_jobs,
                            si < n_singles,
                            pi < n_places,
                            n_jobs == problem.jobs@.len(),
                            n_singles == singles_of(problem.jobs@[j as int]).len(),
                            *single == singles_of(problem.jobs@[j as int])[si as int],
                            n_places == single.places@.len(),
                            n_times == single.places@[pi as int].times@.len(),
                            index@.no_duplicates(),
                            forall|k1: int, k2: int|
                                #![trigger index@[k1], index@[k2]]
                                0 <= k1 < k2 < index@.len() && (index@[k1] is Job)
                                    ==> (index@[k2] is Job),
                            forall|k1: int, k2: int|
                                #![trigger index@[k1], index@[k2]]
                                0 <= k1 < k2 < index@.len() && (index@[k1] is Job)
                                    && (index@[k2] is Job) ==> job_coords_before(
                                    index@[k1],
                                    index@[k2]->Job_job as int,
                                    index@[k2]->Job_single_idx as int,
                                    index@[k2]->Job_place_idx as int,
                                    index@[k2]->Job_tw_idx as int,
                                ),
                            forall|k: int|
                                0 <= k < index@.len() ==> ((#[trigger] index@[k])
                                    matches ActivityInfo::Job { .. } ==> job_coords_before(
                                    index@[k],
                                    j as int,
                                    si as int,
                                    pi as int,
                                    ti as int,
                                )),
                            forall|k: int|
                                0 <= k < index@.len() ==> ((#[trigger] index@[k])
                                    matches ActivityInfo::Job { job, single_idx, place_idx, tw_idx }
                                    ==> job_info_valid(
                                    problem,
                                    job as int,
                                    single_idx as int,
                                    place_idx as int,
                                    tw_idx as int,
                                )),
                            forall|jx: usize, sx: usize, px: usize, tx: usize|
                                jx < j && job_info_valid(
                                    problem,
                                    jx as int,
                                    sx as int,
                                    px as int,
                                    tx as int,
                                ) ==> #[trigger] index@.contains(
                                    ActivityInfo::Job {
                                        job: jx,
                                        single_idx: sx,
                                        place_idx: px,
                                        tw_idx: tx,
                                    },
                                ),
                            forall|sx: usize, px: usize, tx: usize|
                                sx < si && job_info_valid(
                                    problem,
                                    j as int,
                                    sx as int,
                                    px as int,
                                    tx as int,
                                ) ==> #[trigger] index@.contains(ActivityInfo::Job { job: j, single_idx: sx, place_idx: px, tw_idx: tx }),
                            forall|px: usize, tx: usize|
                                px < pi && job_info_valid(
                                    problem,
                                    j as int,
                                    si as int,
                                    px as int,
                                    tx as int,
                                ) ==> #[trigger] index@.contains(ActivityInfo::Job { job: j, single_idx: si, place_idx: px, tw_idx: tx }),
                            forall|tx: usize|
                                tx < ti && job_info_valid(
                                    problem,
                                    j as int,
                                    si as int,
                                    pi as int,
                                    tx as int,
                                ) ==> #[trigger] index@.contains(ActivityInfo::Job { job: j, single_idx: si, place_idx: pi, tw_idx: tx }),
                            fleet_terminals(problem, index@),
                        decreases n_times - ti,
                    {
                        let ghost pre = index@;
                        index.push(ActivityInfo::Job { job: j, single_idx: si, place_idx: pi, tw_idx: ti });
                        proof {
                            crate::model::lemma_push_preserves_contains(
                                pre,
                                ActivityInfo::Job { job: j, single_idx: si, place_idx: pi, tw_idx: ti },
                            );
                            assert(index@.last() == ActivityInfo::Job { job: j, single_idx: si, place_idx: pi, tw_idx: ti });
                            lemma_push_job_entry(pre, j, si, pi, ti);
                        }
                        ti = ti + 1;
                    }
                    pi = pi + 1;
                }
                si = si + 1;
            }
            j = j + 1;
        }
        AdjacencyMatrixDecipher { problem, activity_index: index }
    }

    /// Number of rows and columns of the matrices this decipher produces.
    pub fn dimensions(&self) -> (r: usize)
        ensures
            r == self.activity_index@.len(),
    {
        self.activity_index.len()
    }

    /// Appends one entry to the activity index.
    pub fn add(&mut self, activity_info: ActivityInfo)
        ensures
            final(self).problem == old(self).problem,
            final(self).activity_index@ == old(self).activity_index@.push(activity_info),
    {
        self.activity_index.push(activity_info);
    }
}


/// First place and time window of the candidate list that match the
/// activity's location, duration and time window.
pub fn try_match_activity_place(activity: &Activity, places: &Vec<Place>) -> (r: Option<
    (usize, usize),
>)
    ensures
        r matches Some(m) ==> m.0 < places@.len() && place_time_matches(
            *activity,
            places@[m.0 as int],
            m.1 as int,
        ),
        r matches Some(m) ==> forall|px: int, ti: int|
            0 <= px < m.0 ==> !(#[trigger] place_time_matches(*activity, places@[px], ti)),
        r matches Some(m) ==> forall|tx: int|
            0 <= tx < m.1 ==> !(#[trigger] place_time_matches(
                *activity,
                places@[m.0 as int],
                tx,
            )),
        r is None ==> forall|pi: int, ti: int|
            0 <= pi < places@.len() ==> !(#[trigger] place_time_matches(
                *activity,
                places@[pi],
                ti,
            )),
{
    let mut pi: usize = 0;
    while pi < places.len()
        invariant
            pi <= places@.len(),
            forall|px: int, ti: int|
                0 <= px < pi ==> !(#[trigger] place_time_matches(*activity, places@[px], ti)),
        decreases places@.len() - pi,
    {
        let place = &places[pi];
        let matches_loc = match place.location {
            Some(l) => l == activity.location,
            None => false,
        };
        if matches_loc && place.duration == activity.duration {
            let mut ti: usize = 0;
            while ti < place.times.len()
                invariant
                    ti <= place.times@.len(),
                    pi < places@.len(),
                    place == &places@[pi as int],
                    place.location == Some(activity.location),
                    place.duration == activity.duration,
                    forall|px: int, tx: int|
                        0 <= px < pi ==> !(#[trigger] place_time_matches(
                            *activity,
                            places@[px],
                            tx,
                        )),
                    forall|tx: int|
                        0 <= tx < ti ==> place.times@[tx] != (
                        activity.time_start,
                        activity.time_end,
                        ),
                decreases place.times@.len() - ti,
            {
                let tw = place.times[ti];
                if tw.0 == activity.time_start && tw.1 == activity.time_end {
                    proof {
                        assert forall|tx: int|
                            0 <= tx < ti implies !place_time_matches(
                            *activity,
                            places@[pi as int],
                            tx,
                        ) by {
                            assert(place.times@[tx] != (activity.time_start, activity.time_end));
                        }
                    }
                    return Some((pi, ti));
                }
                ti = ti + 1;
            }
            proof {
                assert forall|tx: int| !place_time_matches(
                    *activity,
                    places@[pi as int],
                    tx,
                ) by {
                    if 0 <= tx < place.times@.len() {
                        assert(place.times@[tx] != (activity.time_start, activity.time_end));
                    }
                }
            }
        } else {
            proof {
                assert forall|tx: int| !place_time_matches(
                    *activity,
                    places@[pi as int],
                    tx,
                ) by {}
            }
        }
        pi = pi + 1;
    }
    None
}

/// The index entry a concrete tour activity stands for: its matched job
/// stop, or a terminal of the route's actor detail.
pub fn create_activity_info(problem: &Problem, detail: ActorDetail, a: &Activity) -> (r:
    ActivityInfo)
    requires
        wf_problem(*problem),
        a.job matches Some(j) ==> {
            &&& j < problem.jobs@.len()
            &&& a.single_idx < singles_of(problem.jobs@[j as int]).len()
            &&& exists|pi: int, ti: int|
                0 <= pi < singles_of(problem.jobs@[j as int])[a.single_idx as int].places@.len()
                    && #[trigger] place_time_matches(
                    *a,
                    singles_of(problem.jobs@[j as int])[a.single_idx as int].places@[pi],
                    ti,
                )
        },
    ensures
        a.job is None ==> r == (ActivityInfo::Terminal { detail, location: a.location }),
        a.job matches Some(j) ==> (r matches ActivityInfo::Job {
            job,
            single_idx,
            place_idx,
            tw_idx,
        } && job == j && single_idx == a.single_idx && place_idx
            < singles_of(problem.jobs@[j as int])[a.single_idx as int].places@.len()
            && place_time_matches(
            *a,
            singles_of(problem.jobs@[j as int])[a.single_idx as int].places@[place_idx as int],
            tw_idx as int,
        ) && (forall|px: int, tx: int|
            0 <= px < place_idx ==> !(#[trigger] place_time_matches(
                *a,
                singles_of(problem.jobs@[j as int])[a.single_idx as int].places@[px],
                tx,
            ))) && (forall|tx: int|
            0 <= tx < tw_idx ==> !(#[trigger] place_time_matches(
                *a,
                singles_of(problem.jobs@[j as int])[a.single_idx as int].places@[place_idx as int],
                tx,
            )))),
{
    match a.job {
        Some(j) => {
            let single = match &problem.jobs[j] {
                JobDef::Single(s) => s,
                JobDef::Multi(v) => &v[a.single_idx],
            };
            proof {
                assert(*single == singles_of(problem.jobs@[j as int])[a.single_idx as int]);
            }
            match try_match_activity_place(a, &single.places) {
                Some(m) => ActivityInfo::Job {
                    job: j,
                    single_idx: a.single_idx,
                    place_idx: m.0,
                    tw_idx: m.1,
                },
                None => {
                    proof {
                        let (pi, ti) = choose|pi: int, ti: int|
                            0 <= pi < singles_of(
                                problem.jobs@[j as int],
                            )[a.single_idx as int].places@.len() && #[trigger] place_time_matches(
                                *a,
                                singles_of(
                                    problem.jobs@[j as int],
                                )[a.single_idx as int].places@[pi],
                                ti,
                            );
                        assert(!place_time_matches(*a, single.places@[pi], ti));
                        assert(false);
                    }
                    ActivityInfo::Terminal { detail, location: a.location }
                },
            }
        },
        None => ActivityInfo::Terminal { detail, location: a.location },
    }
}

/// Whether `pr` is the evaluation pair built from the job index entry:
/// the entry's job, with a single job pinning exactly the entry's place
/// and time window.
pub open spec fn pinned_single_of(p: Problem, info: ActivityInfo, pr: (usize, SingleJob)) -> bool {
    &&& info matches ActivityInfo::Job { job, single_idx, place_idx, tw_idx }
    &&& (info matches ActivityInfo::Job { job, single_idx, place_idx, tw_idx } ==> {
        let orig = singles_of(p.jobs@[job as int])[single_idx as int];
        let place = orig.places@[place_idx as int];
        &&& pr.0 == job
        &&& pr.1.is_break == orig.is_break
        &&& pr.1.vehicle_id == orig.vehicle_id
        &&& pr.1.places@.len() == 1
        &&& pr.1.places@[0].location == place.location
        &&& pr.1.places@[0].duration == place.duration
        &&& pr.1.places@[0].times@ == seq![place.times@[tw_idx as int]]
    })
}

/// Whether `pr` is the evaluation pair of some job entry of the list.
pub open spec fn pinned_from_some_entry(
    p: Problem,
    infos: Seq<ActivityInfo>,
    pr: (usize, SingleJob),
) -> bool {
    exists|k: int| 0 <= k < infos.len() && #[trigger] pinned_single_of(p, infos[k], pr)
}

/// A fake single job pinning one place and one time window, so that the
/// external insertion evaluation faces no uncertainty; terminals give
/// nothing.
pub fn create_single_job(problem: &Problem, activity_info: &ActivityInfo) -> (r: Option<
    (usize, SingleJob),
>)
    requires
        wf_problem(*problem),
        *activity_info matches ActivityInfo::Job { job, single_idx, place_idx, tw_idx }
            ==> job_info_valid(
            *problem,
            job as int,
            single_idx as int,
            place_idx as int,
            tw_idx as int,
        ),
    ensures
        *activity_info matches ActivityInfo::Terminal { .. } ==> r is None,
        *activity_info matches ActivityInfo::Job { job, single_idx, place_idx, tw_idx } ==> {
            let orig = singles_of(problem.jobs@[job as int])[single_idx as int];
            let place = orig.places@[place_idx as int];
            r matches Some(pr) && pr.0 == job && pr.1.is_break == orig.is_break
                && pr.1.vehicle_id == orig.vehicle_id && pr.1.places@.len() == 1
                && pr.1.places@[0].location == place.location && pr.1.places@[0].duration
                == place.duration && pr.1.places@[0].times@ == seq![
                place.times@[tw_idx as int],
            ]
        },
        *activity_info matches ActivityInfo::Job { job, single_idx, place_idx, tw_idx } ==> (r
            matches Some(pr) && pinned_single_of(*problem, *activity_info, pr)),
{
    match activity_info {
        ActivityInfo::Job { job, single_idx, place_idx, tw_idx } => {
            let single = match &problem.jobs[*job] {
                JobDef::Single(s) => s,
                JobDef::Multi(v) => &v[*single_idx],
            };
            proof {
                assert(*single == singles_of(problem.jobs@[*job as int])[*single_idx as int]);
            }
            let place = &single.places[*place_idx];
            let tw = place.times[*tw_idx];
            let mut times: Vec<(u64, u64)> = Vec::new();
            times.push(tw);
            let pinned = Place { location: place.location, duration: place.duration, times };
            let mut places: Vec<Place> = Vec::new();
            places.push(pinned);
            Some(
                (
                    *job,
                    SingleJob {
                        places,
                        is_break: single.is_break,
                        vehicle_id: single.vehicle_id,
                    },
                ),
            )
        },
        ActivityInfo::Terminal { .. } => None,
    }
}

/// Prepares the insertion evaluations of a decoded route: which jobs, with
/// which pinned place, are handed to the external insertion evaluation.
pub struct ActivityInfoInserter {}

impl ActivityInfoInserter {
    pub fn new() -> (r: ActivityInfoInserter)
        ensures
            r == (ActivityInfoInserter {  }),
    {
        ActivityInfoInserter {  }
    }

    /// Walks the decoded activity entries and collects, for every job entry
    /// still waiting to be processed, the pinned single job to evaluate;
    /// the external recreate phase performs the evaluations themselves.
    pub fn insert(
        &mut self,
        problem: &Problem,
        unprocessed: &Vec<usize>,
        activity_infos: &Vec<ActivityInfo>,
    ) -> (r: Vec<(usize, SingleJob)>)
        requires
            wf_problem(*problem),
            forall|k: int|
                0 <= k < activity_infos@.len() ==> ((#[trigger] activity_infos@[k])
                    matches ActivityInfo::Job { job, single_idx, place_idx, tw_idx }
                    ==> job_info_valid(
                    *problem,
                    job as int,
                    single_idx as int,
                    place_idx as int,
                    tw_idx as int,
                )),
        ensures
            forall|k: int|
                0 <= k < r@.len() ==> unprocessed@.contains((#[trigger] r@[k]).0),
            r@.len() <= activity_infos@.len(),
            forall|k: int|
                0 <= k < activity_infos@.len() ==> (((#[trigger] activity_infos@[k])
                    matches ActivityInfo::Job { job, single_idx, place_idx, tw_idx }
                    && unprocessed@.contains(job)) ==> exists|x: int|
                    0 <= x < r@.len() && (#[trigger] r@[x]).0 == activity_infos@[k]->Job_job),
            forall|x: int|
                0 <= x < r@.len() ==> #[trigger] pinned_from_some_entry(
                    *problem,
                    activity_infos@,
                    r@[x],
                ),
    {
        let mut r: Vec<(usize, SingleJob)> = Vec::new();
        let mut k: usize = 0;
        while k < activity_infos.len()
            invariant
                k <= activity_infos@.len(),
                wf_problem(*problem),
                forall|x: int|
                    0 <= x < activity_infos@.len() ==> ((#[trigger] activity_infos@[x])
                        matches ActivityInfo::Job { job, single_idx, place_idx, tw_idx }
                        ==> job_info_valid(
                        *problem,
                        job as int,
                        single_idx as int,
                        place_idx as int,
                        tw_idx as int,
                    )),
                forall|x: int|
                    0 <= x < r@.len() ==> unprocessed@.contains((#[trigger] r@[x]).0),
                r@.len() <= k,
                forall|x: int|
                    0 <= x < r@.len() ==> #[trigger] pinned_from_some_entry(
                        *problem,
                        activity_infos@,
                        r@[x],
                    ),
                forall|x: int|
                    0 <= x < k ==> (((#[trigger] activity_infos@[x])
                        matches ActivityInfo::Job { job, single_idx, place_idx, tw_idx }
                        && unprocessed@.contains(job)) ==> exists|y: int|
                        0 <= y < r@.len() && (#[trigger] r@[y]).0 == activity_infos@[x]->Job_job),
            decreases activity_infos@.len() - k,
        {
            let ghost pre_r = r@;
            match create_single_job(problem, &activity_infos[k]) {
                Some(pr) => {
                    let is_unprocessed = pool_contains(unprocessed, pr.0);
                    if is_unprocessed {
                        let ghost pre_r2 = r@;
                        r.push(pr);
                        proof {
                            assert(r@[r@.len() - 1].0 == activity_infos@[k as int]->Job_job);
                            assert(pinned_single_of(
                                *problem,
                                activity_infos@[k as int],
                                r@[r@.len() - 1],
                            ));
                            assert(pinned_from_some_entry(
                                *problem,
                                activity_infos@,
                                r@[r@.len() - 1],
                            ));
                        }
                    } else {
                        proof {
                            assert(!unprocessed@.contains(activity_infos@[k as int]->Job_job));
                        }
                    }
                },
                None => {},
            }
            proof {
                assert forall|x: int|
                    0 <= x < k + 1 implies (((#[trigger] activity_infos@[x])
                        matches ActivityInfo::Job { job, single_idx, place_idx, tw_idx }
                        && unprocessed@.contains(job)) ==> exists|y: int|
                        0 <= y < r@.len() && (#[trigger] r@[y]).0 == activity_infos@[x]->Job_job) by {
                    if x < k {
                        if activity_infos@[x] matches ActivityInfo::Job { job, .. }
                            && unprocessed@.contains(job) {
                            let y = choose|y: int|
                                0 <= y < pre_r.len() && (#[trigger] pre_r[y]).0
                                    == activity_infos@[x]->Job_job;
                            assert(r@[y].0 == activity_infos@[x]->Job_job);
                        }
                    }
                }
            }
            k = k + 1;
        }
        r
    }
}

/// A square adjacency matrix over the activity index: cell `(from, to)`
/// holds `actor + 1` when that actor's tour travels the leg, 0 otherwise.
pub struct AdjacencyMatrix {
    pub dimensions: usize,
    pub cells: Vec<Vec<usize>>,
}

pub open spec fn wf_matrix(m: AdjacencyMatrix) -> bool {
    &&& m.cells@.len() == m.dimensions
    &&& forall|x: int| 0 <= x < m.cells@.len() ==> (#[trigger] m.cells@[x])@.len() == m.dimensions
}

impl AdjacencyMatrix {
    /// An empty matrix of the given dimensions.
    pub fn new(dimensions: usize) -> (r: AdjacencyMatrix)
        ensures
            r.dimensions == dimensions,
            wf_matrix(r),
            forall|x: int, y: int|
                0 <= x < dimensions && 0 <= y < dimensions ==> (#[trigger] r.cells@[x]@[y]) == 0,
    {
        let row = vec![0usize; dimensions];
        let cells = vec![row; dimensions];
        AdjacencyMatrix { dimensions, cells }
    }

    /// Reads one cell.
    pub fn get_cell(&self, from: usize, to: usize) -> (r: usize)
        requires
            wf_matrix(*self),
            from < self.dimensions,
            to < self.dimensions,
        ensures
            r == self.cells@[from as int]@[to as int],
    {
        self.cells[from][to]
    }

    /// Writes one cell.
    pub fn set_cell(&mut self, from: usize, to: usize, value: usize)
        requires
            wf_matrix(*old(self)),
            from < old(self).dimensions,
            to < old(self).dimensions,
        ensures
            wf_matrix(*final(self)),
            final(self).dimensions == old(self).dimensions,
            final(self).cells@[from as int]@[to as int] == value,
            forall|x: int, y: int|
                #![trigger final(self).cells@[x]@[y]]
                0 <= x < old(self).cells@.len() && 0 <= y < old(self).cells@[x]@.len() && !(x
                    == from && y == to) ==> final(self).cells@[x]@[y] == old(self).cells@[x]@[y],
    {
        self.cells[from][to] = value;
    }
}

/// Whether the index entry describes the activity as seen from a route
/// with the given actor detail: the same bound job for job stops, the
/// detail's terminal at the same location otherwise.
pub open spec fn entry_describes(detail: ActorDetail, a: Activity, info: ActivityInfo) -> bool {
    match a.job {
        Some(j) => info matches ActivityInfo::Job { job, single_idx, place_idx, tw_idx } && job
            == j && single_idx == a.single_idx,
        None => info == (ActivityInfo::Terminal { detail, location: a.location }),
    }
}

/// Whether every activity of every route can be matched to an index entry:
/// actors point into the fleet, job stops match a place and time window of
/// their job, stops without a job are terminals of the actor's detail, and
/// only the first and last position of a tour may lack a job.
pub open spec fn encode_ready(p: Problem, s: SolutionContext) -> bool {
    &&& forall|r: int|
        0 <= r < s.routes@.len() ==> (#[trigger] s.routes@[r]).actor < p.fleet@.len()
    &&& forall|r: int, i: int|
        0 <= r < s.routes@.len() && 0 <= i < s.routes@[r].tour.activities@.len() ==> {
            let a = #[trigger] s.routes@[r].tour.activities@[i];
            let d = p.fleet@[s.routes@[r].actor as int];
            match a.job {
                Some(j) => {
                    &&& j < p.jobs@.len()
                    &&& (a.single_idx as int) < singles_of(p.jobs@[j as int]).len()
                    &&& exists|pi: int, ti: int|
                        0 <= pi < singles_of(p.jobs@[j as int])[a.single_idx as int].places@.len()
                            && #[trigger] place_time_matches(
                            a,
                            singles_of(p.jobs@[j as int])[a.single_idx as int].places@[pi],
                            ti,
                        )
                },
                None => d.start == Some(a.location) || d.end == Some(a.location),
            }
        }
    &&& forall|r: int, i: int|
        0 <= r < s.routes@.len() && 1 <= i < s.routes@[r].tour.activities@.len() - 1
            ==> #[trigger] s.routes@[r].tour.activities@[i].job is Some
    &&& forall|r1: int, r2: int|
        0 <= r1 < r2 < s.routes@.len() ==> p.fleet@[(#[trigger] s.routes@[r1]).actor as int]
            != p.fleet@[(#[trigger] s.routes@[r2]).actor as int]
}

/// Whether `x` is the first index of the activity index holding its entry.
pub open spec fn first_occurrence(index: Seq<ActivityInfo>, x: int) -> bool {
    &&& 0 <= x < index.len()
    &&& forall|k: int| 0 <= k < x ==> index[k] != index[x]
}

/// Whether cell `(x, y)` of the matrix records leg `i` of route `r`.
pub open spec fn cell_records_leg(
    p: Problem,
    s: SolutionContext,
    index: Seq<ActivityInfo>,
    m: AdjacencyMatrix,
    x: int,
    y: int,
    r: int,
    i: int,
) -> bool {
    let route = s.routes@[r];
    let d = p.fleet@[route.actor as int];
    &&& 0 <= r < s.routes@.len()
    &&& 0 <= i < route.tour.activities@.len() - 1
    &&& m.cells@[x]@[y] == route.actor + 1
    &&& first_occurrence(index, x)
    &&& first_occurrence(index, y)
    &&& entry_describes(d, route.tour.activities@[i], index[x])
    &&& entry_describes(d, route.tour.activities@[i + 1], index[y])
}

/// Whether the cell the leg's two stops index to is written: some index
/// positions describe the leg's endpoints, first-occurrence both, and the
/// matrix holds a mark there.
pub open spec fn leg_cell_written(
    p: Problem,
    s: SolutionContext,
    index: Seq<ActivityInfo>,
    m: AdjacencyMatrix,
    rt: int,
    i: int,
) -> bool {
    exists|x: int, y: int|
        #![trigger m.cells@[x]@[y]]
        {
            let route = s.routes@[rt];
            let d = p.fleet@[route.actor as int];
            &&& 0 <= x < index.len()
            &&& 0 <= y < index.len()
            &&& first_occurrence(index, x)
            &&& first_occurrence(index, y)
            &&& entry_describes(d, route.tour.activities@[i], index[x])
            &&& entry_describes(d, route.tour.activities@[i + 1], index[y])
            &&& m.cells@[x]@[y] != 0
        }
}

/// Whether `y` is the first column of the row holding the actor mark.
pub open spec fn first_mark_in_row(m: AdjacencyMatrix, row: int, val: usize, y: int) -> bool {
    &&& 0 <= y < m.dimensions
    &&& m.cells@[row]@[y] == val
    &&& forall|z: int| 0 <= z < y ==> m.cells@[row]@[z] != val
}

/// Whether no column of the row holds the actor mark.
pub open spec fn no_mark_in_row(m: AdjacencyMatrix, row: int, val: usize) -> bool {
    forall|z: int| 0 <= z < m.dimensions ==> m.cells@[row]@[z] != val
}

impl AdjacencyMatrix {
    /// First column of the row that holds `value`, scanning from the
    /// front.
    pub fn scan_row(&self, row: usize, value: usize) -> (r: Option<usize>)
        requires
            wf_matrix(*self),
            row < self.dimensions,
        ensures
            r matches Some(y) ==> first_mark_in_row(*self, row as int, value, y as int),
            r is None ==> no_mark_in_row(*self, row as int, value),
    {
        let mut y: usize = 0;
        while y < self.dimensions
            invariant
                y <= self.dimensions,
                wf_matrix(*self),
                row < self.dimensions,
                forall|z: int| 0 <= z < y ==> self.cells@[row as int]@[z] != value,
            decreases self.dimensions - y,
        {
            if self.cells[row][y] == value {
                return Some(y);
            }
            y = y + 1;
        }
        None
    }
}

impl AdjacencyMatrixDecipher {
    /// Position of the entry in the activity index, scanning from the
    /// front.
    fn lookup(&self, info: ActivityInfo) -> (r: Option<usize>)
        ensures
            r matches Some(x) ==> x < self.activity_index@.len() && self.activity_index@[x as int]
                == info && first_occurrence(self.activity_index@, x as int),
            r is None ==> !self.activity_index@.contains(info),
    {
        let mut x: usize = 0;
        while x < self.activity_index.len()
            invariant
                x <= self.activity_index@.len(),
                forall|k: int| 0 <= k < x ==> self.activity_index@[k] != info,
            decreases self.activity_index@.len() - x,
        {
            if self.activity_index[x] == info {
                return Some(x);
            }
            x = x + 1;
        }
        proof {
            if self.activity_index@.contains(info) {
                let k = choose|k: int|
                    0 <= k < self.activity_index@.len() && self.activity_index@[k] == info;
                assert(false);
            }
        }
        None
    }

    /// Encodes the solution: for every leg of every tour, the cell indexed
    /// by the leg's two activity entries receives the route's actor mark,
    /// so every written cell records a leg of the route whose mark it
    /// holds.
    #[verifier::rlimit(100)]
    pub fn encode(&self, solution_ctx: &SolutionContext) -> (r: AdjacencyMatrix)
        requires
            wf_problem(self.problem),
            crate::model::wf_solution(*solution_ctx, self.problem),
            encode_ready(self.problem, *solution_ctx),
            index_complete(self.problem, self.activity_index@),
            fleet_terminals(self.problem, self.activity_index@),
        ensures
            r.dimensions == self.activity_index@.len(),
            wf_matrix(r),
            forall|x: int, y: int|
                0 <= x < r.dimensions && 0 <= y < r.dimensions && (#[trigger] r.cells@[x]@[y]) != 0
                    ==> exists|rt: int, i: int|
                    cell_records_leg(
                        self.problem,
                        *solution_ctx,
                        self.activity_index@,
                        r,
                        x,
                        y,
                        rt,
                        i,
                    ),
            forall|rt: int, i: int|
                #![trigger solution_ctx.routes@[rt].tour.activities@[i]]
                0 <= rt < solution_ctx.routes@.len() && 0 <= i
                    < solution_ctx.routes@[rt].tour.activities@.len() - 1 ==> leg_cell_written(
                    self.problem,
                    *solution_ctx,
                    self.activity_index@,
                    r,
                    rt,
                    i,
                ),
    {
        let dims = self.activity_index.len();
        let mut matrix = AdjacencyMatrix::new(dims);
        let mut rt: usize = 0;
        while rt < solution_ctx.routes.len()
            invariant
                rt <= solution_ctx.routes@.len(),
                wf_problem(self.problem),
                crate::model::wf_solution(*solution_ctx, self.problem),
                encode_ready(self.problem, *solution_ctx),
                index_complete(self.problem, self.activity_index@),
                fleet_terminals(self.problem, self.activity_index@),
                dims == self.activity_index@.len(),
                matrix.dimensions == dims,
                wf_matrix(matrix),
                forall|x: int, y: int|
                    0 <= x < dims && 0 <= y < dims && (#[trigger] matrix.cells@[x]@[y]) != 0
                        ==> exists|r2: int, i2: int|
                        cell_records_leg(
                            self.problem,
                            *solution_ctx,
                            self.activity_index@,
                            matrix,
                            x,
                            y,
                            r2,
                            i2,
                        ),
                forall|r2: int, i2: int|
                    #![trigger solution_ctx.routes@[r2].tour.activities@[i2]]
                    0 <= r2 < rt && 0 <= i2 < solution_ctx.routes@[r2].tour.activities@.len() - 1
                        ==> leg_cell_written(
                        self.problem,
                        *solution_ctx,
                        self.activity_index@,
                        matrix,
                        r2,
                        i2,
                    ),
            decreases solution_ctx.routes@.len() - rt,
        {
            let actor = solution_ctx.routes[rt].actor;
            let n_fleet = self.problem.fleet.len();
            let detail = self.problem.fleet[actor];
            let tour_len = solution_ctx.routes[rt].tour.activities.len();
            let mut i: usize = 0;
            while i + 1 < tour_len
                invariant
                    i < tour_len || i == 0,
                    rt < solution_ctx.routes@.len(),
                    tour_len == solution_ctx.routes@[rt as int].tour.activities@.len(),
                    actor == solution_ctx.routes@[rt as int].actor,
                    actor < n_fleet,
                    n_fleet == self.problem.fleet@.len(),
                    detail == self.problem.fleet@[actor as int],
                    wf_problem(self.problem),
                    crate::model::wf_solution(*solution_ctx, self.problem),
                    encode_ready(self.problem, *solution_ctx),
                    index_complete(self.problem, self.activity_index@),
                    fleet_terminals(self.problem, self.activity_index@),
                    dims == self.activity_index@.len(),
                    matrix.dimensions == dims,
                    wf_matrix(matrix),
                    forall|x: int, y: int|
                        0 <= x < dims && 0 <= y < dims && (#[trigger] matrix.cells@[x]@[y]) != 0
                            ==> exists|r2: int, i2: int|
                            cell_records_leg(
                                self.problem,
                                *solution_ctx,
                                self.activity_index@,
                                matrix,
                                x,
                                y,
                                r2,
                                i2,
                            ),
                    forall|r2: int, i2: int|
                        #![trigger solution_ctx.routes@[r2].tour.activities@[i2]]
                        (0 <= r2 < rt && 0 <= i2 < solution_ctx.routes@[
                            r2
                        ].tour.activities@.len() - 1) || (r2 == rt && 0 <= i2 < i)
                            ==> leg_cell_written(
                            self.problem,
                            *solution_ctx,
                            self.activity_index@,
                            matrix,
                            r2,
                            i2,
                        ),
                decreases tour_len - i,
            {
                let from_act = solution_ctx.routes[rt].tour.activities[i];
                let to_act = solution_ctx.routes[rt].tour.activities[i + 1];
                let from_info = create_activity_info(&self.problem, detail, &from_act);
                let to_info = create_activity_info(&self.problem, detail, &to_act);
                proof {
                    lemma_encode_info_present(
                        self.problem,
                        *solution_ctx,
                        self.activity_index@,
                        rt as int,
                        i as int,
                        from_info,
                    );
                    lemma_encode_info_present(
                        self.problem,
                        *solution_ctx,
                        self.activity_index@,
                        rt as int,
                        i as int + 1,
                        to_info,
                    );
                }
                let x = match self.lookup(from_info) {
                    Some(x) => x,
                    None => {
                        proof {
                            assert(false);
                        }
                        0
                    },
                };
                let y = match self.lookup(to_info) {
                    Some(y) => y,
                    None => {
                        proof {
                            assert(false);
                        }
                        0
                    },
                };
                let ghost pre_matrix = matrix;
                matrix.set_cell(x, y, actor + 1);
                proof {
                    assert(entry_describes(detail, from_act, self.activity_index@[x as int]));
                    assert(entry_describes(detail, to_act, self.activity_index@[y as int]));
                    assert forall|x2: int, y2: int|
                        0 <= x2 < dims && 0 <= y2 < dims && (#[trigger] matrix.cells@[x2]@[y2])
                            != 0 implies exists|r2: int, i2: int|
                        cell_records_leg(
                            self.problem,
                            *solution_ctx,
                            self.activity_index@,
                            matrix,
                            x2,
                            y2,
                            r2,
                            i2,
                        ) by {
                        if x2 == x as int && y2 == y as int {
                            assert(cell_records_leg(
                                self.problem,
                                *solution_ctx,
                                self.activity_index@,
                                matrix,
                                x2,
                                y2,
                                rt as int,
                                i as int,
                            ));
                        } else {
                            assert(matrix.cells@[x2]@[y2] == pre_matrix.cells@[x2]@[y2]);
                            let (r2, i2) = choose|r2: int, i2: int|
                                cell_records_leg(
                                    self.problem,
                                    *solution_ctx,
                                    self.activity_index@,
                                    pre_matrix,
                                    x2,
                                    y2,
                                    r2,
                                    i2,
                                );
                            assert(cell_records_leg(
                                self.problem,
                                *solution_ctx,
                                self.activity_index@,
                                matrix,
                                x2,
                                y2,
                                r2,
                                i2,
                            ));
                        }
                    }
                    assert forall|r2: int, i2: int|
                        #![trigger solution_ctx.routes@[r2].tour.activities@[i2]]
                        (0 <= r2 < rt && 0 <= i2 < solution_ctx.routes@[
                            r2
                        ].tour.activities@.len() - 1) || (r2 == rt && 0 <= i2 < i + 1)
                            implies leg_cell_written(
                            self.problem,
                            *solution_ctx,
                            self.activity_index@,
                            matrix,
                            r2,
                            i2,
                        ) by {
                        if r2 == rt && i2 == i {
                            assert(matrix.cells@[x as int]@[y as int] == actor + 1);
                            assert(matrix.cells@[x as int]@[y as int] != 0);
                            assert(first_occurrence(self.activity_index@, x as int));
                            assert(first_occurrence(self.activity_index@, y as int));
                        } else {
                            assert(leg_cell_written(
                                self.problem,
                                *solution_ctx,
                                self.activity_index@,
                                pre_matrix,
                                r2,
                                i2,
                            ));
                            let route2 = solution_ctx.routes@[r2];
                            let d2 = self.problem.fleet@[route2.actor as int];
                            let (x2, y2) = choose|x2: int, y2: int|
                                #![trigger pre_matrix.cells@[x2]@[y2]]
                                {
                                    &&& 0 <= x2 < self.activity_index@.len()
                                    &&& 0 <= y2 < self.activity_index@.len()
                                    &&& first_occurrence(self.activity_index@, x2)
                                    &&& first_occurrence(self.activity_index@, y2)
                                    &&& entry_describes(
                                        d2,
                                        route2.tour.activities@[i2],
                                        self.activity_index@[x2],
                                    )
                                    &&& entry_describes(
                                        d2,
                                        route2.tour.activities@[i2 + 1],
                                        self.activity_index@[y2],
                                    )
                                    &&& pre_matrix.cells@[x2]@[y2] != 0
                                };
                            if x2 == x as int && y2 == y as int {
                                assert(matrix.cells@[x2]@[y2] == actor + 1);
                                assert(matrix.cells@[x2]@[y2] != 0);
                            } else {
                                assert(matrix.cells@[x2]@[y2] == pre_matrix.cells@[x2]@[y2]);
                            }
                        }
                    }
                }
                i = i + 1;
            }
            rt = rt + 1;
        }
        matrix
    }

    /// Follows the actor's marks through the matrix from the start row:
    /// each step scans the current row for the mark and moves to the column
    /// found, collecting that column's activity entry.  The walk stops when
    /// a row holds no mark, or after one step per matrix row, so a cyclic
    /// matrix cannot make it spin.
    pub fn get_activity_infos(
        &self,
        matrix: &AdjacencyMatrix,
        actor_mark: usize,
        start_row_idx: usize,
    ) -> (r: Vec<ActivityInfo>)
        requires
            wf_matrix(*matrix),
            matrix.dimensions == self.activity_index@.len(),
            start_row_idx < matrix.dimensions,
        ensures
            r@.len() <= matrix.dimensions,
            exists|rows: Seq<int>|
                #![trigger rows.len()]
                {
                    &&& rows.len() == r@.len()
                    &&& forall|t: int|
                        0 <= t < rows.len() ==> {
                            &&& 0 <= #[trigger] rows[t] < matrix.dimensions
                            &&& r@[t] == self.activity_index@[rows[t]]
                            &&& first_mark_in_row(
                                *matrix,
                                if t == 0 {
                                    start_row_idx as int
                                } else {
                                    rows[t - 1]
                                },
                                actor_mark,
                                rows[t],
                            )
                        }
                    &&& r@.len() < matrix.dimensions ==> no_mark_in_row(
                        *matrix,
                        if r@.len() == 0 {
                            start_row_idx as int
                        } else {
                            rows[r@.len() - 1]
                        },
                        actor_mark,
                    )
                },
    {
        let mut infos: Vec<ActivityInfo> = Vec::new();
        let ghost mut rows: Seq<int> = Seq::empty();
        let mut row = start_row_idx;
        let mut steps: usize = 0;
        loop
            invariant
                wf_matrix(*matrix),
                matrix.dimensions == self.activity_index@.len(),
                start_row_idx < matrix.dimensions,
                row < matrix.dimensions,
                steps <= matrix.dimensions,
                infos@.len() == steps,
                rows.len() == steps,
                forall|t: int|
                    0 <= t < rows.len() ==> {
                        &&& 0 <= #[trigger] rows[t] < matrix.dimensions
                        &&& infos@[t] == self.activity_index@[rows[t]]
                        &&& first_mark_in_row(
                            *matrix,
                            if t == 0 {
                                start_row_idx as int
                            } else {
                                rows[t - 1]
                            },
                            actor_mark,
                            rows[t],
                        )
                    },
                steps > 0 ==> rows[steps - 1] == row as int,
                steps == 0 ==> row == start_row_idx,
            ensures
                infos@.len() == rows.len(),
                infos@.len() <= matrix.dimensions,
                row < matrix.dimensions,
                forall|t: int|
                    0 <= t < rows.len() ==> {
                        &&& 0 <= #[trigger] rows[t] < matrix.dimensions
                        &&& infos@[t] == self.activity_index@[rows[t]]
                        &&& first_mark_in_row(
                            *matrix,
                            if t == 0 {
                                start_row_idx as int
                            } else {
                                rows[t - 1]
                            },
                            actor_mark,
                            rows[t],
                        )
                    },
                infos@.len() < matrix.dimensions ==> no_mark_in_row(
                    *matrix,
                    if infos@.len() == 0 {
                        start_row_idx as int
                    } else {
                        rows[infos@.len() - 1]
                    },
                    actor_mark,
                ),
            decreases matrix.dimensions - steps,
        {
            if steps >= matrix.dimensions {
                break;
            }
            match matrix.scan_row(row, actor_mark) {
                Some(y) => {
                    infos.push(self.activity_index[y]);
                    proof {
                        rows = rows.push(y as int);
                    }
                    row = y;
                    steps = steps + 1;
                },
                None => {
                    break;
                },
            }
        }
        infos
    }
}

/// The index entry a leg endpoint maps to is present in the index: job
/// entries by completeness, terminal entries because the stop's location
/// is one of the detail's terminals.
proof fn lemma_encode_info_present(
    p: Problem,
    s: SolutionContext,
    index: Seq<ActivityInfo>,
    rt: int,
    i: int,
    info: ActivityInfo,
)
    requires
        wf_problem(p),
        encode_ready(p, s),
        index_complete(p, index),
        fleet_terminals(p, index),
        0 <= rt < s.routes@.len(),
        0 <= i < s.routes@[rt].tour.activities@.len(),
        ({
            let a = s.routes@[rt].tour.activities@[i];
            let d = p.fleet@[s.routes@[rt].actor as int];
            match a.job {
                Some(j) => info matches ActivityInfo::Job { job, single_idx, place_idx, tw_idx }
                    && job == j && single_idx == a.single_idx && job_info_valid(
                    p,
                    job as int,
                    single_idx as int,
                    place_idx as int,
                    tw_idx as int,
                ),
                None => info == (ActivityInfo::Terminal { detail: d, location: a.location }),
            }
        }),
    ensures
        index.contains(info),
{
    let a = s.routes@[rt].tour.activities@[i];
    let d = p.fleet@[s.routes@[rt].actor as int];
    match a.job {
        Some(j) => {
            assert(index.contains(info));
        },
        None => {
            assert(d.start == Some(a.location) || d.end == Some(a.location));
        },
    }
}

} // verus!
