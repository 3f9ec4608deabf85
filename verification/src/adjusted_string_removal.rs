//! Adjusted string removal, after "Slack Induction by String Removals for
//! Vehicle Routing Problems" by Jan Christiaens and Greet Vanden Berghe.
//!
//! A string is a sequence of consecutive positions in a tour; its
//! cardinality is the number of jobs it binds.  The strategy picks a seed
//! job, then walks the seed's proximity neighbors, removing one string from
//! each route it touches until it has disturbed the drawn number of routes.

use vstd::prelude::*;

use crate::model::Activity;
use crate::model::InsertionContext;
use crate::model::Problem;
use crate::model::Route;
use crate::model::SolutionContext;
use crate::model::Tour;
use crate::model::assigned_in;
use crate::model::no_jobs_anywhere;
use crate::model::pool_contains;
use crate::model::removed_of;
use crate::model::ruin_core;
use crate::model::ruin_outcome;
use crate::model::tour_has_job;
use crate::model::tour_has_some_job;
use crate::model::wf_insertion;
use crate::model::wf_problem;
use crate::model::wf_routes;
use crate::model::wf_solution;
use crate::model::wf_tour;
use crate::random::DefaultRandom;
use crate::random::next_state;
use crate::random::picked_flip;
use crate::random::picked_in;

verus! {

/// Number of positions in `[lo, p)` that a gapped string keeps: positions
/// outside the preserved sub-block `[ss, se)`, plus the seed position `idx`
/// even when it falls inside the sub-block.
pub open spec fn kept_count(lo: int, p: int, ss: int, se: int, idx: int) -> int {
    let overlap_lo = if lo > ss { lo } else { ss };
    let overlap_hi = if p < se { p } else { se };
    let overlap = if overlap_hi > overlap_lo { overlap_hi - overlap_lo } else { 0 };
    let seed_back = if ss <= idx < se && lo <= idx < p { 1int } else { 0int };
    (p - lo) - overlap + seed_back
}

/// Whether position `p` is kept by a gapped string with preserved
/// sub-block `[ss, se)` and seed position `idx`.
pub open spec fn kept_position(p: int, ss: int, se: int, idx: int) -> bool {
    p < ss || p >= se || p == idx
}

/// The jobs bound at the kept positions of `[lo, p)`, in position order:
/// exactly what a string built over that window removes.
pub open spec fn window_jobs(
    acts: Seq<Activity>,
    lo: int,
    p: int,
    ss: int,
    se: int,
    idx: int,
) -> Seq<usize>
    decreases p - lo,
{
    if p <= lo {
        Seq::empty()
    } else {
        let rest = window_jobs(acts, lo, p - 1, ss, se, idx);
        if kept_position(p - 1, ss, se, idx) && acts[p - 1].job is Some {
            rest.push(acts[p - 1].job->0)
        } else {
            rest
        }
    }
}

/// When every position of the window binds a job, the string holds exactly
/// one job per kept position.
pub proof fn lemma_window_all_bound(
    acts: Seq<Activity>,
    lo: int,
    p: int,
    ss: int,
    se: int,
    idx: int,
)
    requires
        0 <= lo,
        p <= acts.len(),
        forall|q: int| lo <= q < p ==> (#[trigger] acts[q].job) is Some,
    ensures
        p > lo ==> window_jobs(acts, lo, p, ss, se, idx).len() == kept_count(lo, p, ss, se, idx),
        p <= lo ==> window_jobs(acts, lo, p, ss, se, idx).len() == 0,
    decreases p - lo,
{
    if p > lo {
        lemma_window_all_bound(acts, lo, p - 1, ss, se, idx);
    }
}

/// Range of admissible lower bounds for a string of cardinality
/// `string_crd` around position `index` of a tour with `tour_crd`
/// activities after the start.
pub open spec fn lb_begin(string_crd: int, index: int) -> int {
    if index - string_crd > 1 { index - string_crd } else { 1 }
}

pub open spec fn lb_end(string_crd: int, tour_crd: int, index: int) -> int {
    let e = if index + string_crd < tour_crd - string_crd { index + string_crd } else {
        tour_crd - string_crd
    };
    if e > lb_begin(string_crd, index) { e } else { lb_begin(string_crd, index) }
}

/// Returns the range of possible lower bounds for a string.
pub fn lower_bounds(string_crd: usize, tour_crd: usize, index: usize) -> (r: (usize, usize))
    requires
        1 <= string_crd <= tour_crd,
        1 <= index <= tour_crd,
        tour_crd < 0x10000,
    ensures
        r.0 as int == lb_begin(string_crd as int, index as int),
        r.1 as int == lb_end(string_crd as int, tour_crd as int, index as int),
        1 <= r.0 <= r.1,
        r.1 + string_crd <= tour_crd + 1,
{
    let begin: usize = if index > string_crd + 1 { index - string_crd } else { 1 };
    let cap: usize = tour_crd - string_crd;
    let mut end: usize = if index + string_crd < cap { index + string_crd } else { cap };
    if end < begin {
        end = begin;
    }
    (begin, end)
}


/// The contiguous string drawn at stream state `s`: its lower bound is one
/// uniform draw from the admissible range, and the string holds the jobs
/// of the `crd` positions from there.
pub open spec fn sequential_string_spec(acts: Seq<Activity>, index: int, crd: int, s: u64) -> (
    Seq<usize>,
    u64,
) {
    let b = lb_begin(crd, index);
    let e = lb_end(crd, acts.len() - 1, index);
    let start = picked_in(s, b, e);
    (window_jobs(acts, start, start + crd, 0, 0, index), next_state(s))
}

/// The growth walk of the preserved sub-block: starting at `p`, it grows
/// while the total still fits in the tour, stopping at a step whose draw
/// falls below `alpha_num`.
pub open spec fn grow_preserved(
    string_crd: int,
    tour_crd: int,
    alpha_num: int,
    alpha_den: int,
    s: u64,
    p: int,
) -> (int, u64)
    decreases tour_crd - string_crd - p,
{
    if string_crd + p >= tour_crd {
        (p, s)
    } else {
        let u = picked_in(s, 0, alpha_den - 1);
        let s2 = next_state(s);
        if u < alpha_num {
            (p, s2)
        } else {
            grow_preserved(string_crd, tour_crd, alpha_num, alpha_den, s2, p + 1)
        }
    }
}

/// The preserved cardinality drawn at stream state `s`: zero when the
/// string already fills the tour, else the growth walk from 1.
pub open spec fn preserved_cardinality_spec(
    string_crd: int,
    tour_crd: int,
    alpha_num: int,
    alpha_den: int,
    s: u64,
) -> (int, u64) {
    if string_crd == tour_crd {
        (0, s)
    } else {
        grow_preserved(string_crd, tour_crd, alpha_num, alpha_den, s, 1)
    }
}

/// The gapped string drawn at stream state `s`: the preserved cardinality,
/// then the window's lower bound, then the preserved sub-block's start,
/// each one uniform draw; the seed position is always kept.
pub open spec fn preserved_string_spec(
    acts: Seq<Activity>,
    index: int,
    crd: int,
    alpha_num: int,
    alpha_den: int,
    s: u64,
) -> (Seq<usize>, u64) {
    let size = acts.len() - 1;
    let grown = preserved_cardinality_spec(crd, size, alpha_num, alpha_den, s);
    let split = grown.0;
    let s1 = grown.1;
    let total0 = crd + split;
    let b = lb_begin(total0, index);
    let e = lb_end(total0, size, index);
    let start = picked_in(s1, b, e);
    let s2 = next_state(s1);
    let ss = picked_in(s2, start, start + crd - 1);
    let s3 = next_state(s2);
    let se = ss + split;
    let total = if ss <= index < se {
        total0 - 1
    } else {
        total0
    };
    (window_jobs(acts, start, start + total, ss, se, index), s3)
}

/// The string drawn at stream state `s`: a coin flip chooses between the
/// contiguous and the gapped sub-strategy.
pub open spec fn select_string_spec(
    acts: Seq<Activity>,
    index: int,
    crd: int,
    alpha_num: int,
    alpha_den: int,
    s: u64,
) -> (Seq<usize>, u64) {
    let s1 = next_state(s);
    if picked_flip(s) {
        sequential_string_spec(acts, index, crd, s1)
    } else {
        preserved_string_spec(acts, index, crd, alpha_num, alpha_den, s1)
    }
}

/// Every position of a tour after the start binds a job.
pub open spec fn all_positions_bound(acts: Seq<Activity>) -> bool {
    forall|q: int| 1 <= q < acts.len() ==> (#[trigger] acts[q].job) is Some
}

/// Jobs bound in the window `[start, start + total)` of a tour, keeping a
/// position only when it lies outside the preserved sub-block
/// `[split_start, split_end)` or is the seed position `index`.
pub fn collect_string(
    tour: &Tour,
    start: usize,
    total: usize,
    split_start: usize,
    split_end: usize,
    index: usize,
) -> (r: Vec<usize>)
    requires
        wf_tour(*tour),
        1 <= start,
        start + total <= tour.activities@.len(),
    ensures
        r@ == window_jobs(
            tour.activities@,
            start as int,
            start as int + total as int,
            split_start as int,
            split_end as int,
            index as int,
        ),
        r@.len() <= kept_count(
            start as int,
            start as int + total as int,
            split_start as int,
            split_end as int,
            index as int,
        ),
        forall|k: int| 0 <= k < r@.len() ==> tour_has_job(*tour, #[trigger] r@[k]),
        r@.no_duplicates(),
{
    let n = tour.activities.len();
    proof {
        assert(start + total <= n);
    }
    let stop = start + total;
    let mut r: Vec<usize> = Vec::new();
    let ghost mut pos: Seq<int> = Seq::empty();
    let mut p: usize = start;
    while p < stop
        invariant
            wf_tour(*tour),
            1 <= start <= p <= stop,
            stop == start + total,
            stop <= tour.activities@.len(),
            r@ == window_jobs(
                tour.activities@,
                start as int,
                p as int,
                split_start as int,
                split_end as int,
                index as int,
            ),
            r@.len() <= kept_count(
                start as int,
                p as int,
                split_start as int,
                split_end as int,
                index as int,
            ),
            pos.len() == r@.len(),
            forall|k: int| 0 <= k < r@.len() ==> start <= #[trigger] pos[k] < p,
            forall|k: int|
                0 <= k < r@.len() ==> tour.activities@[#[trigger] pos[k]].job == Some(r@[k]),
            r@.no_duplicates(),
        decreases start + total - p,
    {
        if p < split_start || p >= split_end || p == index {
            match tour.activities[p].job {
                Some(j) => {
                    proof {
                        assert forall|k: int| 0 <= k < r@.len() implies r@[k] != j by {
                            assert(tour.activities@[pos[k]].job != tour.activities@[p as int].job);
                        }
                    }
                    r.push(j);
                    proof {
                        pos = pos.push(p as int);
                    }
                },
                None => {},
            }
        }
        p = p + 1;
    }
    proof {
        assert forall|k: int| 0 <= k < r@.len() implies tour_has_job(*tour, #[trigger] r@[k]) by {
            assert(tour.activities@[pos[k]].job == Some(r@[k]));
        }
    }
    r
}

/// Selects a contiguous string of up to `cardinality` consecutive jobs
/// around the seed position, its lower bound drawn uniformly from the
/// admissible range.
pub fn sequential_string(
    tour: &Tour,
    index: usize,
    cardinality: usize,
    random: &mut DefaultRandom,
) -> (r: Vec<usize>)
    requires
        wf_tour(*tour),
        tour.activities@.len() < 0x10000,
        1 <= index < tour.activities@.len(),
        1 <= cardinality <= tour.activities@.len() - 1,
    ensures
        r@ == sequential_string_spec(
            tour.activities@,
            index as int,
            cardinality as int,
            old(random).state,
        ).0,
        final(random).state == sequential_string_spec(
            tour.activities@,
            index as int,
            cardinality as int,
            old(random).state,
        ).1,
        r@.len() <= cardinality,
        forall|k: int| 0 <= k < r@.len() ==> tour_has_job(*tour, #[trigger] r@[k]),
        r@.no_duplicates(),
        all_positions_bound(tour.activities@) ==> r@.len() >= 1,
{
    let tour_crd = tour.activity_count();
    let (begin, end) = lower_bounds(cardinality, tour_crd, index);
    let start = random.uniform_int(begin, end);
    let r = collect_string(tour, start, cardinality, 0, 0, index);
    proof {
        if all_positions_bound(tour.activities@) {
            lemma_window_all_bound(
                tour.activities@,
                start as int,
                start as int + cardinality as int,
                0,
                0,
                index as int,
            );
        }
    }
    r
}

/// Draws the cardinality of the preserved sub-block: it starts at 1 and
/// keeps growing while the total still fits in the tour, stopping at each
/// step with probability `alpha_num / alpha_den`.
pub fn preserved_cardinality(
    string_crd: usize,
    tour_crd: usize,
    alpha_num: usize,
    alpha_den: usize,
    random: &mut DefaultRandom,
) -> (r: usize)
    requires
        1 <= string_crd <= tour_crd,
        1 <= alpha_den,
    ensures
        r as int == preserved_cardinality_spec(
            string_crd as int,
            tour_crd as int,
            alpha_num as int,
            alpha_den as int,
            old(random).state,
        ).0,
        final(random).state == preserved_cardinality_spec(
            string_crd as int,
            tour_crd as int,
            alpha_num as int,
            alpha_den as int,
            old(random).state,
        ).1,
        string_crd == tour_crd ==> r == 0,
        string_crd < tour_crd ==> 1 <= r && string_crd + r <= tour_crd,
{
    if string_crd == tour_crd {
        return 0;
    }
    let ghost state0 = random.state;
    let mut preserved_crd: usize = 1;
    while string_crd + preserved_crd < tour_crd
        invariant_except_break
            1 <= preserved_crd,
            string_crd + preserved_crd <= tour_crd,
            string_crd < tour_crd,
            1 <= alpha_den,
            grow_preserved(
                string_crd as int,
                tour_crd as int,
                alpha_num as int,
                alpha_den as int,
                state0,
                1,
            ) == grow_preserved(
                string_crd as int,
                tour_crd as int,
                alpha_num as int,
                alpha_den as int,
                random.state,
                preserved_crd as int,
            ),
        ensures
            1 <= preserved_crd,
            string_crd + preserved_crd <= tour_crd,
            grow_preserved(
                string_crd as int,
                tour_crd as int,
                alpha_num as int,
                alpha_den as int,
                state0,
                1,
            ) == (preserved_crd as int, random.state),
        decreases tour_crd - string_crd - preserved_crd,
    {
        let ghost pre_state = random.state;
        let u = random.uniform_int(0, alpha_den - 1);
        if u < alpha_num {
            proof {
                assert(grow_preserved(
                    string_crd as int,
                    tour_crd as int,
                    alpha_num as int,
                    alpha_den as int,
                    pre_state,
                    preserved_crd as int,
                ) == (preserved_crd as int, random.state));
            }
            break;
        }
        preserved_crd = preserved_crd + 1;
    }
    preserved_crd
}

/// Selects a gapped string: a wider window around the seed from which a
/// randomly placed interior sub-block is preserved rather than removed; the
/// seed itself is always kept in the string.
pub fn preserved_string(
    tour: &Tour,
    index: usize,
    cardinality: usize,
    alpha_num: usize,
    alpha_den: usize,
    random: &mut DefaultRandom,
) -> (r: Vec<usize>)
    requires
        wf_tour(*tour),
        tour.activities@.len() < 0x10000,
        1 <= index < tour.activities@.len(),
        1 <= cardinality <= tour.activities@.len() - 1,
        1 <= alpha_den,
    ensures
        r@ == preserved_string_spec(
            tour.activities@,
            index as int,
            cardinality as int,
            alpha_num as int,
            alpha_den as int,
            old(random).state,
        ).0,
        final(random).state == preserved_string_spec(
            tour.activities@,
            index as int,
            cardinality as int,
            alpha_num as int,
            alpha_den as int,
            old(random).state,
        ).1,
        r@.len() <= cardinality,
        forall|k: int| 0 <= k < r@.len() ==> tour_has_job(*tour, #[trigger] r@[k]),
        r@.no_duplicates(),
        all_positions_bound(tour.activities@) ==> r@.len() >= 1,
{
    let size = tour.activity_count();
    let split_size = preserved_cardinality(cardinality, size, alpha_num, alpha_den, random);
    let total0 = cardinality + split_size;
    let (begin, end) = lower_bounds(total0, size, index);
    let start_total = random.uniform_int(begin, end);
    let split_start = random.uniform_int(start_total, start_total + cardinality - 1);
    let split_end = split_start + split_size;
    let in_split = split_start <= index && index < split_end;
    let total = if in_split { total0 - 1 } else { total0 };
    proof {
        assert(split_end <= start_total + total0 - 1 + 1);
        assert(kept_count(
            start_total as int,
            start_total as int + total as int,
            split_start as int,
            split_end as int,
            index as int,
        ) == cardinality);
    }
    let r = collect_string(tour, start_total, total, split_start, split_end, index);
    proof {
        if all_positions_bound(tour.activities@) {
            lemma_window_all_bound(
                tour.activities@,
                start_total as int,
                start_total as int + total as int,
                split_start as int,
                split_end as int,
                index as int,
            );
        }
    }
    r
}

/// Flips the shared coin and selects either a contiguous or a gapped string
/// for the seed at `index`.
pub fn select_string(
    tour: &Tour,
    index: usize,
    cardinality: usize,
    alpha_num: usize,
    alpha_den: usize,
    random: &mut DefaultRandom,
) -> (r: Vec<usize>)
    requires
        wf_tour(*tour),
        tour.activities@.len() < 0x10000,
        1 <= index < tour.activities@.len(),
        1 <= cardinality <= tour.activities@.len() - 1,
        1 <= alpha_den,
    ensures
        r@ == select_string_spec(
            tour.activities@,
            index as int,
            cardinality as int,
            alpha_num as int,
            alpha_den as int,
            old(random).state,
        ).0,
        final(random).state == select_string_spec(
            tour.activities@,
            index as int,
            cardinality as int,
            alpha_num as int,
            alpha_den as int,
            old(random).state,
        ).1,
        r@.len() <= cardinality,
        forall|k: int| 0 <= k < r@.len() ==> tour_has_job(*tour, #[trigger] r@[k]),
        r@.no_duplicates(),
        all_positions_bound(tour.activities@) ==> r@.len() >= 1,
{
    if random.is_head_not_tails() {
        sequential_string(tour, index, cardinality, random)
    } else {
        preserved_string(tour, index, cardinality, alpha_num, alpha_den, random)
    }
}


/// The wrap-around scan of a tour: the job bound at the first job-bearing
/// position reached from `start` after `k` steps, modulo the tour length.
pub open spec fn scan_job_from(acts: Seq<Activity>, start: int, k: int) -> Option<usize>
    decreases acts.len() - k,
{
    if k < 0 || k >= acts.len() {
        None
    } else {
        let p = (start + k) % (acts.len() as int);
        if acts[p].job is Some {
            acts[p].job
        } else {
            scan_job_from(acts, start, k + 1)
        }
    }
}

/// The seed job drawn at stream state `s`: a uniformly drawn position, then
/// the forward wrap-around scan from it.  The start activity carries no
/// job, so it is never the source of the result.
pub open spec fn select_random_job_spec(acts: Seq<Activity>, s: u64) -> (Option<usize>, u64) {
    let size = acts.len() - 1;
    if size == 0 {
        (None::<usize>, s)
    } else {
        let start = picked_in(s, 1, size);
        (scan_job_from(acts, start, 0), next_state(s))
    }
}

/// Picks a uniformly random activity position and scans forward with
/// wrap-around until one bound to a job is found.
pub fn select_random_job(rc: &Route, random: &mut DefaultRandom) -> (r: Option<usize>)
    requires
        wf_tour(rc.tour),
        rc.tour.activities@.len() < 0x10000,
    ensures
        r == select_random_job_spec(rc.tour.activities@, old(random).state).0,
        final(random).state == select_random_job_spec(rc.tour.activities@, old(random).state).1,
        r is Some <==> tour_has_some_job(rc.tour),
        r matches Some(j) ==> tour_has_job(rc.tour, j),
{
    let size = rc.tour.activity_count();
    if size == 0 {
        return None;
    }
    let activity_index = random.uniform_int(1, size);
    let mut k: usize = 0;
    while k < size + 1
        invariant
            k <= size + 1,
            1 <= activity_index <= size,
            size + 1 == rc.tour.activities@.len(),
            rc.tour.activities@.len() < 0x10000,
            forall|s: int|
                0 <= s < k ==> !(#[trigger] rc.tour.activities@[
                    (activity_index + s) % (size + 1) as int].job is Some),
            scan_job_from(rc.tour.activities@, activity_index as int, 0) == scan_job_from(
                rc.tour.activities@,
                activity_index as int,
                k as int,
            ),
            1 <= size,
            activity_index as int == picked_in(old(random).state, 1, size as int),
            random.state == next_state(old(random).state),
        decreases size + 1 - k,
    {
        let ai = (activity_index + k) % (size + 1);
        match rc.tour.get(ai) {
            Some(j) => {
                proof {
                    assert(scan_job_from(rc.tour.activities@, activity_index as int, k as int)
                        == Some(j));
                }
                return Some(j);
            },
            None => {},
        }
        k = k + 1;
    }
    proof {
        assert forall|i: int|
            0 <= i < rc.tour.activities@.len() implies !(#[trigger] rc.tour.activities@[i].job
            is Some) by {
            let s = if i >= activity_index {
                i - activity_index
            } else {
                i + (size + 1) - activity_index
            };
            assert(0 <= s < size + 1);
            assert((activity_index + s) % (size + 1) as int == i) by {
                vstd::arithmetic::div_mod::lemma_small_mod(i as nat, (size + 1) as nat);
                if i >= activity_index {
                    assert(activity_index + s == i);
                } else {
                    assert(activity_index + s == ((size + 1) as int) * 1 + i);
                    vstd::arithmetic::div_mod::lemma_mod_multiples_vanish(
                        1,
                        i,
                        (size + 1) as int,
                    );
                }
            }
        }
    }
    None
}


/// The wrap-around scan of the route set: the first job-bearing route
/// reached from `start` after `k` steps, modulo the route count.
pub open spec fn scan_route_from(routes: Seq<Route>, start: int, k: int) -> Option<int>
    decreases routes.len() - k,
{
    if k < 0 || k >= routes.len() {
        None
    } else {
        let p = (start + k) % (routes.len() as int);
        if tour_has_some_job(routes[p].tour) {
            Some(p)
        } else {
            scan_route_from(routes, start, k + 1)
        }
    }
}

/// The seed drawn at stream state `s`: a uniformly drawn route index, the
/// wrap-around scan to the first job-bearing route, then one seed job
/// drawn within it.
pub open spec fn select_seed_job_spec(routes: Seq<Route>, s: u64) -> (Option<(int, usize)>, u64) {
    if routes.len() == 0 {
        (None::<(int, usize)>, s)
    } else {
        let start = picked_in(s, 0, routes.len() - 1);
        let s1 = next_state(s);
        match scan_route_from(routes, start, 0) {
            Some(p) => {
                let picked = select_random_job_spec(routes[p].tour.activities@, s1);
                match picked.0 {
                    Some(job) => (Some((p, job)), picked.1),
                    None => (None::<(int, usize)>, picked.1),
                }
            },
            None => (None::<(int, usize)>, s1),
        }
    }
}

/// Picks a uniformly random route and scans forward with wrap-around until
/// one with at least one job-bearing activity is found; within it a random
/// job is selected as the seed.  Returns the route's index and the seed.
pub fn select_seed_job(routes: &Vec<Route>, random: &mut DefaultRandom) -> (r: Option<
    (usize, usize),
>)
    requires
        forall|i: int| 0 <= i < routes@.len() ==> wf_tour(#[trigger] routes@[i].tour),
        forall|i: int|
            0 <= i < routes@.len() ==> #[trigger] routes@[i].tour.activities@.len() < 0x10000,
        routes@.len() < 0x10000,
    ensures
        (match r {
            Some(p) => select_seed_job_spec(routes@, old(random).state).0 == Some(
                (p.0 as int, p.1),
            ),
            None => select_seed_job_spec(routes@, old(random).state).0 is None,
        }),
        final(random).state == select_seed_job_spec(routes@, old(random).state).1,
        r matches Some(p) ==> p.0 < routes@.len() && tour_has_job(routes@[p.0 as int].tour, p.1),
        r is None ==> forall|i: int|
            0 <= i < routes@.len() ==> !tour_has_some_job(#[trigger] routes@[i].tour),
{
    if routes.len() == 0 {
        return None;
    }
    let n = routes.len();
    let route_index = random.uniform_int(0, n - 1);
    let mut k: usize = 0;
    while k < n
        invariant
            k <= n,
            n == routes@.len(),
            n < 0x10000,
            1 <= n,
            route_index < n,
            route_index as int == picked_in(old(random).state, 0, n as int - 1),
            random.state == next_state(old(random).state),
            forall|i: int| 0 <= i < routes@.len() ==> wf_tour(#[trigger] routes@[i].tour),
            forall|i: int|
                0 <= i < routes@.len() ==> #[trigger] routes@[i].tour.activities@.len() < 0x10000,
            forall|s: int|
                0 <= s < k ==> !tour_has_some_job(
                    #[trigger] routes@[(route_index + s) % n as int].tour,
                ),
            scan_route_from(routes@, route_index as int, 0) == scan_route_from(
                routes@,
                route_index as int,
                k as int,
            ),
        decreases n - k,
    {
        let ri = (route_index + k) % n;
        if routes[ri].tour.has_jobs() {
            proof {
                assert(scan_route_from(routes@, route_index as int, k as int) == Some(ri as int));
            }
            let ghost s1 = random.state;
            match select_random_job(&routes[ri], random) {
                Some(job) => {
                    proof {
                        assert(select_random_job_spec(routes@[ri as int].tour.activities@, s1).0
                            == Some(job));
                    }
                    return Some((ri, job));
                },
                None => {
                    proof {
                        assert(false);
                    }
                },
            }
        }
        k = k + 1;
    }
    proof {
        assert forall|i: int|
            0 <= i < routes@.len() implies !tour_has_some_job(#[trigger] routes@[i].tour) by {
            let s = if i >= route_index {
                i - route_index
            } else {
                i + n - route_index
            };
            assert(0 <= s < n);
            assert((route_index + s) % n as int == i) by {
                vstd::arithmetic::div_mod::lemma_small_mod(i as nat, n as nat);
                if i >= route_index {
                    assert(route_index + s == i);
                } else {
                    assert(route_index + s == (n as int) * 1 + i);
                    vstd::arithmetic::div_mod::lemma_mod_multiples_vanish(1, i, n as int);
                }
            }
        }
    }
    None
}

/// Builds the candidate sequence of one ruin call: the seed job followed by
/// its proximity neighbors under the seed route's profile.
pub fn select_seed_jobs(
    problem: &Problem,
    routes: &Vec<Route>,
    random: &mut DefaultRandom,
) -> (r: Vec<usize>)
    requires
        wf_problem(*problem),
        wf_routes(routes@, *problem),
    ensures
        (match select_seed_job_spec(routes@, old(random).state).0 {
            Some(p) => r@ == seq![p.1] + problem.neighbors@[routes@[p.0].profile as int]@[
                p.1 as int
            ]@,
            None => r@.len() == 0,
        }),
        final(random).state == select_seed_job_spec(routes@, old(random).state).1,
        forall|k: int| 0 <= k < r@.len() ==> #[trigger] r@[k] < problem.jobs@.len(),
        (forall|i: int| 0 <= i < routes@.len() ==> !tour_has_some_job(#[trigger] routes@[i].tour))
            ==> r@.len() == 0,
        (exists|i: int| 0 <= i < routes@.len() && tour_has_some_job(#[trigger] routes@[i].tour))
            ==> r@.len() >= 1,
        r@.len() >= 1 ==> exists|ri: int|
            {
                &&& 0 <= ri < routes@.len()
                &&& tour_has_job(#[trigger] routes@[ri].tour, r@[0])
                &&& r@ == seq![r@[0]] + problem.neighbors@[routes@[ri].profile as int]@[
                    r@[0] as int
                ]@
            },
{
    match select_seed_job(routes, random) {
        Some((ri, job)) => {
            let mut r: Vec<usize> = Vec::new();
            proof {
                assert(exists|p: int|
                    0 <= p < routes@[ri as int].tour.activities@.len()
                        && routes@[ri as int].tour.activities@[p].job == Some(job));
            }
            r.push(job);
            let neighbors = problem.neighbors_of(routes[ri].profile, job);
            let mut k: usize = 0;
            while k < neighbors.len()
                invariant
                    k <= neighbors@.len(),
                    forall|i: int|
                        0 <= i < neighbors@.len() ==> #[trigger] neighbors@[i]
                            < problem.jobs@.len(),
                    forall|i: int| 0 <= i < r@.len() ==> #[trigger] r@[i] < problem.jobs@.len(),
                    r@ == seq![job] + neighbors@.take(k as int),
                decreases neighbors@.len() - k,
            {
                proof {
                    assert(neighbors@.take(k as int + 1) =~= neighbors@.take(k as int).push(
                        neighbors@[k as int],
                    ));
                    assert((seq![job] + neighbors@.take(k as int)).push(neighbors@[k as int])
                        =~= seq![job] + neighbors@.take(k as int + 1));
                }
                r.push(neighbors[k]);
                k = k + 1;
            }
            proof {
                assert(neighbors@.take(neighbors@.len() as int) =~= neighbors@);
                assert(r@[0] == job);
                assert(tour_has_job(routes@[ri as int].tour, r@[0]));
            }
            r
        },
        None => Vec::new(),
    }
}

/// Sum of the per-tour activity counts of a route set.
pub open spec fn sum_counts(rs: Seq<Route>) -> int
    decreases rs.len(),
{
    if rs.len() == 0 {
        0
    } else {
        sum_counts(rs.drop_last()) + rs.last().tour.activities@.len() - 1
    }
}

/// Mean tour activity count, rounded to the nearest integer.
pub open spec fn avg_cardinality(rs: Seq<Route>) -> int {
    if rs.len() == 0 {
        0
    } else {
        (2 * sum_counts(rs) + rs.len()) / (2 * rs.len() as int)
    }
}

/// Maximal removed string cardinality for one tour: the configured cap,
/// bounded by the mean tour cardinality of the current route set.
pub open spec fn lsmax_of(lmax: int, rs: Seq<Route>) -> int {
    if lmax < avg_cardinality(rs) {
        lmax
    } else {
        avg_cardinality(rs)
    }
}

/// Upper bound for the number of strings removed in one call, from the
/// paper's equation for the maximal number of strings.  When the equation
/// gives less than one (four times the average below one plus the string
/// cap) the bound is clamped to a single string; the original's real-valued
/// draw would there range over an empty interval.
pub open spec fn kmax_of(cavg: int, lsmax: int) -> int {
    let d = lsmax + 1;
    if 4 * cavg <= d {
        1
    } else {
        let q = (4 * cavg - d) / d;
        if q < 1 {
            1
        } else {
            q
        }
    }
}

/// The length bound any single removed string obeys.  It is at least 1:
/// even when the mean tour cardinality rounds to zero, the drawn string
/// still covers one position, where the original's real-valued draw would
/// be degenerate.
pub open spec fn string_cap(lmax: int, rs: Seq<Route>) -> int {
    if lsmax_of(lmax, rs) < 1 {
        1
    } else {
        lsmax_of(lmax, rs)
    }
}


/// Inputs on which an adjusted-string-removal call must remove something:
/// nothing is locked, some tour has an activity after the start, and every
/// such activity is bound to a job.
pub open spec fn asr_forced(s: SolutionContext) -> bool {
    &&& s.locked@.len() == 0
    &&& exists|rt: int|
        0 <= rt < s.routes@.len() && (#[trigger] s.routes@[rt]).tour.activities@.len() >= 2
    &&& forall|rt: int|
        0 <= rt < s.routes@.len() ==> all_positions_bound(
            (#[trigger] s.routes@[rt]).tour.activities@,
        )
}

/// Adjusted string removal strategy.
pub struct AdjustedStringRemoval {
    /// Max removed string cardinality for a specific tour.
    pub lmax: usize,
    /// Target average number of removed customers.
    pub cavg: usize,
    /// Preserved customers ratio, as the fraction `alpha_num / alpha_den`.
    pub alpha_num: usize,
    pub alpha_den: usize,
}

pub open spec fn wf_asr(a: AdjustedStringRemoval) -> bool {
    &&& 1 <= a.alpha_den
    &&& a.lmax < 0x10000
    &&& a.cavg < 0x4000
}

impl AdjustedStringRemoval {
    pub fn new(lmax: usize, cavg: usize, alpha_num: usize, alpha_den: usize) -> (r:
        AdjustedStringRemoval)
        requires
            1 <= alpha_den,
            lmax < 0x10000,
            cavg < 0x4000,
        ensures
            r == (AdjustedStringRemoval { lmax, cavg, alpha_num, alpha_den }),
            wf_asr(r),
    {
        AdjustedStringRemoval { lmax, cavg, alpha_num, alpha_den }
    }

    /// Calculates the limits of one call: the string cardinality cap and
    /// the drawn number of routes to disturb.
    fn calculate_limits(&self, routes: &Vec<Route>, random: &mut DefaultRandom) -> (r: (
        usize,
        usize,
    ))
        requires
            wf_asr(*self),
            routes@.len() < 0x10000,
            forall|i: int| 0 <= i < routes@.len() ==> wf_tour(#[trigger] routes@[i].tour),
            forall|i: int|
                0 <= i < routes@.len() ==> #[trigger] routes@[i].tour.activities@.len() < 0x10000,
        ensures
            r.0 as int == lsmax_of(self.lmax as int, routes@),
            1 <= r.1,
            r.1 as int == picked_in(
                old(random).state,
                1,
                kmax_of(self.cavg as int, lsmax_of(self.lmax as int, routes@)),
            ),
            final(random).state == next_state(old(random).state),
    {
        let n = routes.len();
        let mut sum: u64 = 0;
        let mut i: usize = 0;
        while i < n
            invariant
                i <= n,
                n == routes@.len(),
                n < 0x10000,
                forall|k: int| 0 <= k < routes@.len() ==> wf_tour(#[trigger] routes@[k].tour),
                forall|k: int|
                    0 <= k < routes@.len() ==> #[trigger] routes@[k].tour.activities@.len()
                        < 0x10000,
                sum as int == sum_counts(routes@.take(i as int)),
                sum <= i as u64 * 0xffff,
            decreases n - i,
        {
            let c = routes[i].tour.activity_count();
            proof {
                assert(routes@.take(i as int + 1).drop_last() =~= routes@.take(i as int));
                assert(routes@.take(i as int + 1).last() == routes@[i as int]);
            }
            sum = sum + c as u64;
            i = i + 1;
        }
        proof {
            assert(routes@.take(n as int) =~= routes@);
        }
        let lsmax: usize = if n == 0 {
            0
        } else {
            let avg: u64 = (2 * sum + n as u64) / (2 * n as u64);
            if (self.lmax as u64) < avg {
                self.lmax
            } else {
                avg as usize
            }
        };
        let d = lsmax + 1;
        let num = 4 * self.cavg;
        let kmax: usize = if num <= d {
            1
        } else {
            let q = (num - d) / d;
            if q < 1 {
                1
            } else {
                q
            }
        };
        let ks = random.uniform_int(1, kmax);
        (lsmax, ks)
    }
}

/// First route that has not been touched in this call and whose tour holds
/// the candidate job.
fn find_route(routes: &Vec<Route>, touched: &Vec<usize>, job: usize) -> (r: Option<usize>)
    ensures
        r matches Some(ri) ==> {
            &&& ri < routes@.len()
            &&& !touched@.contains(ri)
            &&& tour_has_job(routes@[ri as int].tour, job)
        },
        r is None ==> forall|i: int|
            0 <= i < routes@.len() ==> touched@.contains(i as usize) || !tour_has_job(
                #[trigger] routes@[i].tour,
                job,
            ),
{
    let mut ri: usize = 0;
    while ri < routes.len()
        invariant
            ri <= routes@.len(),
            forall|i: int|
                0 <= i < ri ==> touched@.contains(i as usize) || !tour_has_job(
                    #[trigger] routes@[i].tour,
                    job,
                ),
        decreases routes@.len() - ri,
    {
        if !pool_contains(touched, ri) {
            match routes[ri].tour.index(job) {
                Some(_) => {
                    return Some(ri);
                },
                None => {},
            }
        }
        ri = ri + 1;
    }
    None
}


/// Removes every non-locked job of `string` from route `ri`'s tour, adding
/// each job actually removed to the shared removed set.  Preserves the ruin
/// contract against the solution as it stood when the call began.
#[verifier::rlimit(100)]
fn remove_string_jobs(
    solution: &mut SolutionContext,
    removed: &mut Vec<usize>,
    ri: usize,
    string: &Vec<usize>,
    Ghost(old_sol): Ghost<SolutionContext>,
    Ghost(prob): Ghost<Problem>,
)
    requires
        wf_problem(prob),
        wf_solution(old_sol, prob),
        wf_solution(*old(solution), prob),
        ruin_core(old_sol, *old(solution), old(removed)@),
        old(solution).required@ == old_sol.required@,
        ri < old(solution).routes@.len(),
        old(solution).routes@[ri as int].tour.activities@
            == old_sol.routes@[ri as int].tour.activities@,
    ensures
        wf_solution(*final(solution), prob),
        ruin_core(old_sol, *final(solution), final(removed)@),
        final(solution).required@ == old_sol.required@,
        final(solution).routes@.len() == old(solution).routes@.len(),
        forall|rt: int|
            0 <= rt < final(solution).routes@.len() && rt != ri
                ==> #[trigger] final(solution).routes@[rt] == old(solution).routes@[rt],
        final(solution).routes@[ri as int].tour.activities@.len()
            >= old_sol.routes@[ri as int].tour.activities@.len() - string@.len(),
        final(removed)@.len() >= old(removed)@.len(),
        (string@.len() > 0 && !old_sol.locked@.contains(string@[0]) && tour_has_job(
            old(solution).routes@[ri as int].tour,
            string@[0],
        )) ==> final(removed)@.len() > old(removed)@.len(),
{
    let ghost sol0 = *solution;
    let ghost removed0 = removed@;
    let mut si: usize = 0;
    while si < string.len()
        invariant
            wf_problem(prob),
            wf_solution(old_sol, prob),
            wf_solution(*solution, prob),
            ruin_core(old_sol, *solution, removed@),
            solution.required@ == old_sol.required@,
            ri < solution.routes@.len(),
            solution.routes@.len() == sol0.routes@.len(),
            forall|rt: int|
                0 <= rt < solution.routes@.len() && rt != ri
                    ==> #[trigger] solution.routes@[rt] == sol0.routes@[rt],
            si <= string@.len(),
            removed@.len() - removed0.len() <= si,
            removed0.len() <= removed@.len(),
            solution.routes@[ri as int].tour.activities@.len()
                == old_sol.routes@[ri as int].tour.activities@.len() - (removed@.len()
                - removed0.len()),
            si == 0 ==> solution.routes@[ri as int] == sol0.routes@[ri as int] && removed@
                == removed0,
            (si >= 1 && string@.len() > 0 && !old_sol.locked@.contains(string@[0])
                && tour_has_job(sol0.routes@[ri as int].tour, string@[0])) ==> removed@.len()
                > removed0.len(),
        decreases string@.len() - si,
    {
        let j2 = string[si];
        if !pool_contains(&solution.locked, j2) {
            let was = crate::model::remove_one_job(
                solution,
                removed,
                ri,
                j2,
                Ghost(old_sol),
                Ghost(prob),
            );
            proof {
                if si == 0 && string@.len() > 0 && !old_sol.locked@.contains(string@[0])
                    && tour_has_job(sol0.routes@[ri as int].tour, string@[0]) {
                    assert(was);
                }
            }
        }
        si = si + 1;
    }
}

impl AdjustedStringRemoval {
    /// Runs one adjusted-string-removal call: computes the limits, selects
    /// the seed and its neighbor candidates, removes one string from each of
    /// up to the drawn number of routes, and appends every removed job to
    /// the required pool.
    #[verifier::rlimit(100)]
    pub fn run(&self, insertion_ctx: InsertionContext) -> (r: InsertionContext)
        requires
            wf_asr(*self),
            wf_insertion(insertion_ctx),
        ensures
            wf_insertion(r),
            r.problem == insertion_ctx.problem,
            ruin_outcome(
                insertion_ctx.solution,
                r.solution,
                removed_of(insertion_ctx.solution, r.solution),
            ),
            forall|rt: int|
                0 <= rt < r.solution.routes@.len()
                    ==> #[trigger] r.solution.routes@[rt].tour.activities@.len()
                    >= insertion_ctx.solution.routes@[rt].tour.activities@.len() - string_cap(
                    self.lmax as int,
                    insertion_ctx.solution.routes@,
                ),
            exists|touched: Seq<usize>|
                {
                    &&& touched.no_duplicates()
                    &&& touched.len() <= picked_in(
                        insertion_ctx.random.state,
                        1,
                        kmax_of(
                            self.cavg as int,
                            lsmax_of(self.lmax as int, insertion_ctx.solution.routes@),
                        ),
                    )
                    &&& forall|rt: int|
                        0 <= rt < r.solution.routes@.len() && !touched.contains(rt as usize)
                            ==> #[trigger] r.solution.routes@[rt].tour.activities@
                            == insertion_ctx.solution.routes@[rt].tour.activities@
                },
            no_jobs_anywhere(insertion_ctx.solution) ==> r.solution.routes@
                == insertion_ctx.solution.routes@ && r.solution.required@
                == insertion_ctx.solution.required@,
            asr_forced(insertion_ctx.solution) ==> removed_of(
                insertion_ctx.solution,
                r.solution,
            ).len() >= 1,
    {
        let mut ctx = insertion_ctx;
        let ghost old_sol = ctx.solution;
        let ghost prob = ctx.problem;
        let (lsmax, ks) = self.calculate_limits(&ctx.solution.routes, &mut ctx.random);
        let cands = select_seed_jobs(&ctx.problem, &ctx.solution.routes, &mut ctx.random);
        proof {
            if asr_forced(old_sol) {
                let rt = choose|rt: int|
                    0 <= rt < old_sol.routes@.len() && (
                    #[trigger] old_sol.routes@[rt]).tour.activities@.len() >= 2;
                assert(old_sol.routes@[rt].tour.activities@[1].job is Some);
                assert(tour_has_some_job(old_sol.routes@[rt].tour));
                assert(cands@.len() >= 1);
            }
        }
        let mut removed: Vec<usize> = Vec::new();
        let mut touched: Vec<usize> = Vec::new();
        let mut ci: usize = 0;
        while ci < cands.len() && touched.len() != ks
            invariant
                wf_asr(*self),
                wf_problem(prob),
                ctx.problem == prob,
                wf_solution(old_sol, prob),
                wf_solution(ctx.solution, prob),
                ci <= cands@.len(),
                forall|k: int| 0 <= k < cands@.len() ==> #[trigger] cands@[k] < prob.jobs@.len(),
                ruin_core(old_sol, ctx.solution, removed@),
                ctx.solution.required@ == old_sol.required@,
                touched@.no_duplicates(),
                touched@.len() <= ks,
                forall|k: int| 0 <= k < touched@.len() ==> #[trigger] touched@[k] < old_sol.routes@.len(),
                forall|rt: int|
                    0 <= rt < ctx.solution.routes@.len() && !touched@.contains(rt as usize)
                        ==> #[trigger] ctx.solution.routes@[rt].tour.activities@
                        == old_sol.routes@[rt].tour.activities@,
                forall|rt: int|
                    0 <= rt < ctx.solution.routes@.len()
                        ==> #[trigger] ctx.solution.routes@[rt].tour.activities@.len()
                        >= old_sol.routes@[rt].tour.activities@.len() - string_cap(
                        self.lmax as int,
                        old_sol.routes@,
                    ),
                no_jobs_anywhere(old_sol) ==> cands@.len() == 0,
                no_jobs_anywhere(old_sol) ==> ctx.solution.routes@ == old_sol.routes@
                    && removed@.len() == 0,
                lsmax as int == lsmax_of(self.lmax as int, old_sol.routes@),
                ci == 0 ==> removed@.len() == 0 && touched@.len() == 0,
                cands@.len() >= 1 ==> exists|ri0: int|
                    0 <= ri0 < old_sol.routes@.len() && tour_has_job(
                        #[trigger] old_sol.routes@[ri0].tour,
                        cands@[0],
                    ),
                asr_forced(old_sol) ==> cands@.len() >= 1,
                asr_forced(old_sol) && ci >= 1 ==> removed@.len() >= 1,
                1 <= ks,
            decreases cands@.len() - ci,
        {
            let job = cands[ci];
            if !pool_contains(&removed, job) {
                match find_route(&ctx.solution.routes, &touched, job) {
                    Some(ri) => {
                        let tour_count = ctx.solution.routes[ri].tour.activity_count();
                        let ltmax = if tour_count < lsmax {
                            tour_count
                        } else {
                            lsmax
                        };
                        let ltcap = if ltmax < 1 {
                            1
                        } else {
                            ltmax
                        };
                        let lt = ctx.random.uniform_int(1, ltcap);
                        match ctx.solution.routes[ri].tour.index(job) {
                            Some(index) => {
                                proof {
                                    assert(ctx.solution.routes@[ri as int].tour.activities@[0].job
                                        is None);
                                    assert(index >= 1);
                                    assert(tour_count >= 1);
                                }
                                let ghost pre_touched = touched@;
                                touched.push(ri);
                                proof {
                                    crate::model::lemma_push_contains(pre_touched, ri, ri);
                                    assert forall|rt: int|
                                        0 <= rt < ctx.solution.routes@.len()
                                            && !touched@.contains(rt as usize)
                                            implies #[trigger] ctx.solution.routes@[rt].tour.activities@
                                            == old_sol.routes@[rt].tour.activities@ by {
                                        crate::model::lemma_push_contains(
                                            pre_touched,
                                            ri,
                                            rt as usize,
                                        );
                                    }
                                }
                                let string = select_string(
                                    &ctx.solution.routes[ri].tour,
                                    index,
                                    lt,
                                    self.alpha_num,
                                    self.alpha_den,
                                    &mut ctx.random,
                                );
                                proof {
                                    if asr_forced(old_sol) {
                                        assert(all_positions_bound(
                                            ctx.solution.routes@[ri as int].tour.activities@,
                                        ));
                                        assert(string@.len() >= 1);
                                        assert(!old_sol.locked@.contains(string@[0]));
                                        assert(tour_has_job(
                                            ctx.solution.routes@[ri as int].tour,
                                            string@[0],
                                        ));
                                    }
                                }
                                let ghost removed_before = removed@.len();
                                remove_string_jobs(
                                    &mut ctx.solution,
                                    &mut removed,
                                    ri,
                                    &string,
                                    Ghost(old_sol),
                                    Ghost(prob),
                                );
                                proof {
                                    if asr_forced(old_sol) {
                                        assert(removed@.len() > removed_before);
                                    }
                                }
                            },
                            None => {
                                proof {
                                    if asr_forced(old_sol) && ci == 0 {
                                        assert(false);
                                    }
                                }
                            },
                        }
                    },
                    None => {
                        proof {
                            if asr_forced(old_sol) && ci == 0 {
                                let ri0 = choose|ri0: int|
                                    0 <= ri0 < old_sol.routes@.len() && tour_has_job(
                                        #[trigger] old_sol.routes@[ri0].tour,
                                        cands@[0],
                                    );
                                assert(!touched@.contains(ri0 as usize));
                                assert(ctx.solution.routes@[ri0].tour.activities@
                                    == old_sol.routes@[ri0].tour.activities@);
                                let p = choose|p: int|
                                    0 <= p < old_sol.routes@[ri0].tour.activities@.len()
                                        && old_sol.routes@[ri0].tour.activities@[p].job == Some(
                                        cands@[0],
                                    );
                                assert(ctx.solution.routes@[ri0].tour.activities@[p].job == Some(
                                    job,
                                ));
                                assert(tour_has_job(ctx.solution.routes@[ri0].tour, job));
                                assert(false);
                            }
                        }
                    },
                }
            } else {
                proof {
                    if asr_forced(old_sol) && ci == 0 {
                        assert(removed@.contains(job));
                        assert(false);
                    }
                }
            }
            ci = ci + 1;
        }
        crate::model::push_required(&mut ctx.solution, &removed, Ghost(old_sol), Ghost(prob));
        proof {
            assert(removed_of(old_sol, ctx.solution) =~= removed@) by {
                assert((old_sol.required@ + removed@).skip(old_sol.required@.len() as int)
                    =~= removed@);
            }
            if no_jobs_anywhere(old_sol) {
                assert(ctx.solution.required@ =~= old_sol.required@);
            }
            if asr_forced(old_sol) {
                assert(removed@.len() >= 1);
            }
        }
        ctx
    }
}
} // verus!
