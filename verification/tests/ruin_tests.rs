use vrp_ruin::adjusted_string_removal::AdjustedStringRemoval;
use vrp_ruin::adjusted_string_removal::collect_string;
use vrp_ruin::adjusted_string_removal::lower_bounds;
use vrp_ruin::adjusted_string_removal::preserved_cardinality;
use vrp_ruin::adjusted_string_removal::select_random_job;
use vrp_ruin::adjusted_string_removal::select_seed_job;
use vrp_ruin::adjusted_string_removal::select_seed_jobs;
use vrp_ruin::adjusted_string_removal::sequential_string;
use vrp_ruin::model::Activity;
use vrp_ruin::model::InsertionContext;
use vrp_ruin::model::JobDef;
use vrp_ruin::model::Problem;
use vrp_ruin::model::Route;
use vrp_ruin::model::SingleJob;
use vrp_ruin::model::SolutionContext;
use vrp_ruin::model::Tour;
use vrp_ruin::random::DefaultRandom;
use vrp_ruin::ruin::RuinStrategy;
use vrp_ruin::worst_jobs_removal::WorstJobRemoval;
use vrp_ruin::worst_jobs_removal::get_route_jobs;
use vrp_ruin::worst_jobs_removal::get_routes_cost_savings;

fn act(job: Option<usize>, location: usize) -> Activity {
    Activity { job, single_idx: 0, location, duration: 0, time_start: 0, time_end: 0 }
}

fn single_job() -> JobDef {
    JobDef::Single(SingleJob { places: Vec::new(), is_break: false, vehicle_id: None })
}

/// A problem with `n_jobs` plain jobs, one profile, `n_locations`
/// locations, zero transport costs and empty neighbor lists.
fn plain_problem(n_jobs: usize, n_locations: usize) -> Problem {
    let mut jobs = Vec::new();
    for _ in 0..n_jobs {
        jobs.push(single_job());
    }
    let transport = vec![vec![vec![0i64; n_locations]; n_locations]; 1];
    let neighbors = vec![vec![Vec::new(); n_jobs]; 1];
    Problem { jobs, fleet: Vec::new(), n_locations, n_profiles: 1, transport, neighbors }
}

fn route_of(actor: usize, activities: Vec<Activity>) -> Route {
    Route { actor, vehicle: actor, profile: 0, tour: Tour { activities } }
}

fn solution_of(routes: Vec<Route>) -> SolutionContext {
    SolutionContext {
        routes,
        required: Vec::new(),
        ignored: Vec::new(),
        locked: Vec::new(),
        unassigned: Vec::new(),
    }
}

fn five_job_route() -> Route {
    // start at position 0, then jobs 0..=4 at positions 1..=5
    route_of(
        0,
        vec![
            act(None, 0),
            act(Some(0), 1),
            act(Some(1), 2),
            act(Some(2), 3),
            act(Some(3), 4),
            act(Some(4), 5),
        ],
    )
}

#[test]
fn lower_bounds_around_middle_seed() {
    // a string of 3 around position 3 of a 5-activity tour may start at 1 or 2
    assert_eq!(lower_bounds(3, 5, 3), (1, 2));
}

#[test]
fn lower_bounds_clamps_end_to_begin() {
    // string as long as the whole tour: only start 1 remains
    assert_eq!(lower_bounds(5, 5, 3), (1, 1));
}

#[test]
fn sequential_block_around_seed() {
    // seed job at position 3 of 5, cardinality 3, block starting at 2:
    // positions 2, 3 and 4 hold jobs 1, 2 and 3
    let route = five_job_route();
    let string = collect_string(&route.tour, 2, 3, 0, 0, 3);
    assert_eq!(string, vec![1, 2, 3]);
}

#[test]
fn gapped_string_skips_preserved_block_but_keeps_seed() {
    // window [1, 5), preserved sub-block [2, 4), seed at position 3:
    // positions 1, 3 and 4 remain
    let route = five_job_route();
    let string = collect_string(&route.tour, 1, 4, 2, 4, 3);
    assert_eq!(string, vec![0, 2, 3]);
}

#[test]
fn sequential_string_stays_in_tour() {
    let route = five_job_route();
    let mut random = DefaultRandom::new(7);
    let string = sequential_string(&route.tour, 3, 3, &mut random);
    assert!(string.len() <= 3);
    assert!(!string.is_empty());
    for j in &string {
        assert!(*j <= 4);
    }
}

#[test]
fn preserved_cardinality_fits_tour() {
    let mut random = DefaultRandom::new(3);
    assert_eq!(preserved_cardinality(5, 5, 1, 100, &mut random), 0);
    for seed in 0..20u64 {
        let mut random = DefaultRandom::new(seed);
        let p = preserved_cardinality(2, 7, 50, 100, &mut random);
        assert!(p >= 1);
        assert!(2 + p <= 7);
    }
}

#[test]
fn random_stream_is_reproducible() {
    let mut a = DefaultRandom::new(42);
    let mut b = DefaultRandom::new(42);
    for _ in 0..50 {
        assert_eq!(a.uniform_int(0, 1000), b.uniform_int(0, 1000));
        assert_eq!(a.is_head_not_tails(), b.is_head_not_tails());
    }
}

#[test]
fn uniform_int_honors_bounds() {
    let mut random = DefaultRandom::new(5);
    for _ in 0..200 {
        let v = random.uniform_int(3, 9);
        assert!((3..=9).contains(&v));
    }
}

#[test]
fn select_random_job_finds_a_job() {
    let route = five_job_route();
    let mut random = DefaultRandom::new(11);
    let job = select_random_job(&route, &mut random);
    assert!(job.is_some());
    assert!(job.unwrap() <= 4);
}

#[test]
fn select_random_job_on_empty_tour() {
    let route = route_of(0, vec![act(None, 0)]);
    let mut random = DefaultRandom::new(11);
    assert_eq!(select_random_job(&route, &mut random), None);
}

#[test]
fn seed_selection_skips_jobless_routes() {
    let empty = route_of(0, vec![act(None, 0)]);
    let full = five_job_route();
    let routes = vec![empty, full];
    for seed in 0..10u64 {
        let mut random = DefaultRandom::new(seed);
        let picked = select_seed_job(&routes, &mut random);
        let (ri, job) = picked.expect("a job-bearing route exists");
        assert_eq!(ri, 1);
        assert!(job <= 4);
    }
}

#[test]
fn seed_candidates_empty_without_jobs() {
    let problem = plain_problem(5, 8);
    let routes = vec![route_of(0, vec![act(None, 0)])];
    let mut random = DefaultRandom::new(1);
    let cands = select_seed_jobs(&problem, &routes, &mut random);
    assert!(cands.is_empty());
}

#[test]
fn seed_candidates_start_with_seed_then_neighbors() {
    let mut problem = plain_problem(5, 8);
    // every job's neighbor list names all other jobs
    for j in 0..5 {
        problem.neighbors[0][j] = (0..5).filter(|x| *x != j).collect();
    }
    let routes = vec![five_job_route()];
    let mut random = DefaultRandom::new(1);
    let cands = select_seed_jobs(&problem, &routes, &mut random);
    assert_eq!(cands.len(), 5);
    let seed = cands[0];
    assert_eq!(&cands[1..], problem.neighbors[0][seed].as_slice());
}

fn asr_default() -> AdjustedStringRemoval {
    AdjustedStringRemoval::new(30, 15, 1, 100)
}

#[test]
fn adjusted_string_removal_moves_jobs_to_required() {
    let mut problem = plain_problem(5, 8);
    for j in 0..5 {
        problem.neighbors[0][j] = (0..5).filter(|x| *x != j).collect();
    }
    let ctx = InsertionContext {
        problem,
        solution: solution_of(vec![five_job_route()]),
        random: DefaultRandom::new(9),
    };
    let out = asr_default().run(ctx);
    let removed = out.solution.required.clone();
    assert!(!removed.is_empty());
    // every removed job left the tour; every kept job is still there
    let tour = &out.solution.routes[0].tour;
    for j in 0..5usize {
        let in_tour = tour.index(j).is_some();
        let in_required = removed.contains(&j);
        assert!(in_tour != in_required, "job {} must sit in exactly one place", j);
    }
}

#[test]
fn locked_jobs_survive_adjusted_string_removal() {
    let mut problem = plain_problem(5, 8);
    for j in 0..5 {
        problem.neighbors[0][j] = (0..5).filter(|x| *x != j).collect();
    }
    let mut solution = solution_of(vec![five_job_route()]);
    solution.locked = vec![0, 1, 2, 3, 4];
    let ctx = InsertionContext { problem, solution, random: DefaultRandom::new(9) };
    let out = asr_default().run(ctx);
    // every job locked: the removal set stays empty and the tour keeps all jobs
    assert!(out.solution.required.is_empty());
    assert_eq!(out.solution.routes[0].tour.activities.len(), 6);
    for j in 0..5usize {
        assert!(out.solution.routes[0].tour.index(j).is_some());
    }
}

#[test]
fn locked_route_does_not_stall_other_routes() {
    let mut problem = plain_problem(6, 10);
    for j in 0..6 {
        problem.neighbors[0][j] = (0..6).filter(|x| *x != j).collect();
    }
    let locked_route = route_of(0, vec![act(None, 0), act(Some(0), 1), act(Some(1), 2)]);
    let open_route = route_of(
        1,
        vec![act(None, 3), act(Some(2), 4), act(Some(3), 5), act(Some(4), 6), act(Some(5), 7)],
    );
    let mut solution = solution_of(vec![locked_route, open_route]);
    solution.locked = vec![0, 1];
    let ctx = InsertionContext { problem, solution, random: DefaultRandom::new(17) };
    let out = asr_default().run(ctx);
    // the fully locked route keeps its jobs; removals, if any, come from the other route
    assert!(out.solution.routes[0].tour.index(0).is_some());
    assert!(out.solution.routes[0].tour.index(1).is_some());
    assert!(!out.solution.required.contains(&0));
    assert!(!out.solution.required.contains(&1));
    assert!(!out.solution.required.is_empty());
}

#[test]
fn no_op_on_solution_without_jobs() {
    let problem = plain_problem(3, 4);
    let routes = vec![route_of(0, vec![act(None, 0)]), route_of(1, vec![act(None, 1)])];
    let ctx = InsertionContext {
        problem,
        solution: solution_of(routes),
        random: DefaultRandom::new(23),
    };
    let out = asr_default().run(ctx);
    assert!(out.solution.required.is_empty());
    assert_eq!(out.solution.routes.len(), 2);
    assert_eq!(out.solution.routes[0].tour.activities.len(), 1);
    assert_eq!(out.solution.routes[1].tour.activities.len(), 1);
}

#[test]
fn worst_removal_no_op_without_jobs() {
    let problem = plain_problem(3, 4);
    let routes = vec![route_of(0, vec![act(None, 0)])];
    let ctx = InsertionContext {
        problem,
        solution: solution_of(routes),
        random: DefaultRandom::new(23),
    };
    let out = WorstJobRemoval::default().run(ctx);
    assert!(out.solution.required.is_empty());
    assert_eq!(out.solution.routes[0].tour.activities.len(), 1);
}

#[test]
fn identical_seeds_ruin_identically() {
    let build = || {
        let mut problem = plain_problem(5, 8);
        for j in 0..5 {
            problem.neighbors[0][j] = (0..5).filter(|x| *x != j).collect();
        }
        InsertionContext {
            problem,
            solution: solution_of(vec![five_job_route()]),
            random: DefaultRandom::new(1234),
        }
    };
    let out1 = asr_default().run(build());
    let out2 = asr_default().run(build());
    assert_eq!(out1.solution.required, out2.solution.required);
    assert_eq!(
        out1.solution.routes[0].tour.activities.len(),
        out2.solution.routes[0].tour.activities.len()
    );
}

/// A route whose per-job savings rank as: job 2 at 50, job 0 at 30,
/// job 1 at 10.
fn savings_problem_and_route() -> (Problem, Route) {
    let mut problem = plain_problem(3, 5);
    problem.transport[0][0][1] = 30;
    problem.transport[0][2][3] = 10;
    problem.transport[0][3][4] = 40;
    let route = route_of(
        0,
        vec![act(None, 0), act(Some(0), 1), act(Some(1), 2), act(Some(2), 3), act(None, 4)],
    );
    (problem, route)
}

#[test]
fn cost_savings_rank_descending() {
    let (problem, route) = savings_problem_and_route();
    let ctx = InsertionContext {
        problem,
        solution: solution_of(vec![route]),
        random: DefaultRandom::new(0),
    };
    let savings = get_routes_cost_savings(&ctx);
    assert_eq!(savings.len(), 1);
    assert_eq!(savings[0].0, 0);
    assert_eq!(savings[0].1, vec![(2, 50), (0, 30), (1, 10)]);
}

#[test]
fn worst_removal_takes_top_savings_job() {
    // no skip, one job to remove, no neighbors pass: exactly job 2 leaves
    let (problem, route) = savings_problem_and_route();
    let ctx = InsertionContext {
        problem,
        solution: solution_of(vec![route]),
        random: DefaultRandom::new(99),
    };
    let out = WorstJobRemoval::new(32, 0, 1, 1).run(ctx);
    assert_eq!(out.solution.required, vec![2]);
    assert!(out.solution.routes[0].tour.index(2).is_none());
    assert!(out.solution.routes[0].tour.index(0).is_some());
    assert!(out.solution.routes[0].tour.index(1).is_some());
}

#[test]
fn worst_removal_skips_locked_and_unassigned() {
    let (problem, route) = savings_problem_and_route();
    let mut solution = solution_of(vec![route]);
    solution.locked = vec![2];
    solution.unassigned = vec![(0, 7)];
    let ctx = InsertionContext { problem, solution, random: DefaultRandom::new(99) };
    let out = WorstJobRemoval::new(32, 0, 1, 1).run(ctx);
    // job 2 locked and job 0 unassigned: only job 1 is removable
    assert_eq!(out.solution.required, vec![1]);
    assert!(out.solution.routes[0].tour.index(2).is_some());
}

#[test]
fn route_jobs_index_maps_jobs_to_routes() {
    let problem = plain_problem(5, 8);
    let r0 = route_of(0, vec![act(None, 0), act(Some(0), 1), act(Some(1), 2)]);
    let r1 = route_of(1, vec![act(None, 3), act(Some(3), 4)]);
    let solution = solution_of(vec![r0, r1]);
    let index = get_route_jobs(&solution, &problem);
    assert_eq!(index, vec![Some(0), Some(0), None, Some(1), None]);
}

#[test]
fn dispatch_runs_selected_strategy() {
    let (problem, route) = savings_problem_and_route();
    let ctx = InsertionContext {
        problem,
        solution: solution_of(vec![route]),
        random: DefaultRandom::new(99),
    };
    let strategy = RuinStrategy::WorstJobRemoval(WorstJobRemoval::new(32, 0, 1, 1));
    let out = strategy.run(ctx);
    assert_eq!(out.solution.required, vec![2]);
}

#[test]
fn tour_remove_detaches_single_activity() {
    let mut tour = five_job_route().tour;
    assert!(tour.remove(2));
    assert_eq!(tour.activities.len(), 5);
    assert!(tour.index(2).is_none());
    assert!(!tour.remove(2));
    assert!(tour.index(0).is_some());
    assert!(tour.index(4).is_some());
}

#[test]
fn pool_conservation_across_repeated_calls() {
    let mut problem = plain_problem(8, 12);
    for j in 0..8 {
        problem.neighbors[0][j] = (0..8).filter(|x| *x != j).collect();
    }
    let r0 = route_of(
        0,
        vec![act(None, 0), act(Some(0), 1), act(Some(1), 2), act(Some(2), 3), act(Some(3), 4)],
    );
    let r1 = route_of(
        1,
        vec![act(None, 5), act(Some(4), 6), act(Some(5), 7), act(Some(6), 8), act(Some(7), 9)],
    );
    let mut solution = solution_of(vec![r0, r1]);
    solution.locked = vec![3];
    let ctx = InsertionContext { problem, solution, random: DefaultRandom::new(77) };
    let out = asr_default().run(ctx);
    let removed = out.solution.required.clone();
    // no duplicates in the pool, the locked job untouched, every job in one place
    for (i, a) in removed.iter().enumerate() {
        for b in removed.iter().skip(i + 1) {
            assert_ne!(a, b);
        }
    }
    assert!(!removed.contains(&3));
    let mut assigned = 0;
    for j in 0..8usize {
        let mut places = 0;
        for route in &out.solution.routes {
            if route.tour.index(j).is_some() {
                places += 1;
            }
        }
        if removed.contains(&j) {
            assert_eq!(places, 0);
        } else {
            assert_eq!(places, 1);
            assigned += 1;
        }
    }
    assert_eq!(assigned + removed.len(), 8);
}
