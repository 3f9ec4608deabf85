use vrp_ruin::breaks::BreakHardActivityConstraint;
use vrp_ruin::breaks::BreakModule;
use vrp_ruin::breaks::ActivityContext;
use vrp_ruin::breaks::as_break_job;
use vrp_ruin::breaks::demote_unassigned_breaks;
use vrp_ruin::breaks::get_vehicle_id_from_break;
use vrp_ruin::breaks::get_vehicle_id_from_ctx;
use vrp_ruin::breaks::is_break_job;
use vrp_ruin::breaks::is_required_job;
use vrp_ruin::breaks::remove_orphan_breaks;
use vrp_ruin::decipher::ActivityInfo;
use vrp_ruin::decipher::AdjacencyMatrix;
use vrp_ruin::decipher::ActivityInfoInserter;
use vrp_ruin::decipher::AdjacencyMatrixDecipher;
use vrp_ruin::decipher::create_activity_info;
use vrp_ruin::decipher::create_single_job;
use vrp_ruin::decipher::get_unique_actor_details;
use vrp_ruin::decipher::single_count;
use vrp_ruin::decipher::try_match_activity_place;
use vrp_ruin::model::Activity;
use vrp_ruin::model::ActorDetail;
use vrp_ruin::model::JobDef;
use vrp_ruin::model::Place;
use vrp_ruin::model::Problem;
use vrp_ruin::model::Route;
use vrp_ruin::model::SingleJob;
use vrp_ruin::model::SolutionContext;
use vrp_ruin::model::Tour;

fn act(job: Option<usize>, location: usize) -> Activity {
    Activity { job, single_idx: 0, location, duration: 0, time_start: 0, time_end: 0 }
}

fn plain_single() -> SingleJob {
    SingleJob { places: Vec::new(), is_break: false, vehicle_id: None }
}

fn break_single(vehicle: usize, place_location: Option<usize>) -> SingleJob {
    SingleJob {
        places: vec![Place { location: place_location, duration: 0, times: vec![(0, 100)] }],
        is_break: true,
        vehicle_id: Some(vehicle),
    }
}

fn problem_with_jobs(jobs: Vec<JobDef>) -> Problem {
    let n = jobs.len();
    Problem {
        jobs,
        fleet: Vec::new(),
        n_locations: 16,
        n_profiles: 1,
        transport: vec![vec![vec![0i64; 16]; 16]; 1],
        neighbors: vec![vec![Vec::new(); n]; 1],
    }
}

fn solution_of(routes: Vec<Route>) -> SolutionContext {
    SolutionContext {
        routes,
        required: Vec::new(),
        ignored: Vec::new(),
        locked: Vec::new(),
        unassigned: Vec::new(),
    }
}

fn route_of(vehicle: usize, activities: Vec<Activity>) -> Route {
    Route { actor: vehicle, vehicle, profile: 0, tour: Tour { activities } }
}

#[test]
fn break_job_recognised() {
    assert!(is_break_job(&break_single(1, None)));
    assert!(!is_break_job(&plain_single()));
    assert_eq!(get_vehicle_id_from_break(&break_single(4, None)), Some(4));
    assert_eq!(get_vehicle_id_from_break(&plain_single()), None);
}

#[test]
fn vehicle_id_read_from_route() {
    let route = route_of(6, vec![act(None, 0)]);
    assert_eq!(get_vehicle_id_from_ctx(&route), 6);
}

#[test]
fn break_activity_detected() {
    let problem = problem_with_jobs(vec![
        JobDef::Single(plain_single()),
        JobDef::Single(break_single(0, None)),
    ]);
    assert_eq!(as_break_job(&problem, &act(Some(1), 3)), Some(1));
    assert_eq!(as_break_job(&problem, &act(Some(0), 3)), None);
    assert_eq!(as_break_job(&problem, &act(None, 3)), None);
}

#[test]
fn break_requires_its_vehicle_in_routes() {
    let problem = problem_with_jobs(vec![
        JobDef::Single(break_single(5, None)),
        JobDef::Single(plain_single()),
    ]);
    let mut solution = solution_of(vec![route_of(5, vec![act(None, 0)])]);
    solution.required = vec![1];
    assert!(is_required_job(&problem, &solution, 0));
    assert!(is_required_job(&problem, &solution, 1));
    let other_vehicle = solution_of(vec![route_of(9, vec![act(None, 0)])]);
    assert!(!is_required_job(&problem, &other_vehicle, 0));
}

#[test]
fn break_constraint_stops_after_departure() {
    let problem = problem_with_jobs(vec![JobDef::Single(break_single(3, None))]);
    let constraint = BreakHardActivityConstraint { code: 7 };
    let route = route_of(3, vec![act(None, 0)]);
    let after_departure = ActivityContext { prev: act(None, 0), target: act(Some(0), 1), next: None };
    let violation = constraint.evaluate_activity(&problem, &route, &after_departure).unwrap();
    assert_eq!(violation.code, 7);
    assert!(!violation.stopped);
}

#[test]
fn break_constraint_locks_vehicle() {
    let problem = problem_with_jobs(vec![
        JobDef::Single(break_single(3, None)),
        JobDef::Single(plain_single()),
    ]);
    let constraint = BreakHardActivityConstraint { code: 7 };
    let own = route_of(3, vec![act(None, 0)]);
    let foreign = route_of(8, vec![act(None, 0)]);
    let ctx = ActivityContext { prev: act(Some(1), 1), target: act(Some(0), 2), next: None };
    assert!(constraint.evaluate_activity(&problem, &own, &ctx).is_none());
    assert!(constraint.evaluate_activity(&problem, &foreign, &ctx).is_some());
    let plain = ActivityContext { prev: act(Some(0), 1), target: act(Some(1), 2), next: None };
    assert!(constraint.evaluate_activity(&problem, &foreign, &plain).is_none());
}

#[test]
fn break_module_keeps_configuration() {
    let module = BreakModule::new(11, Some(5), true);
    assert_eq!(module.code, 11);
    assert_eq!(module.extra_break_cost, Some(5));
    assert!(module.demote_breaks_from_unassigned);
}

#[test]
fn unassigned_breaks_are_demoted() {
    let problem = problem_with_jobs(vec![
        JobDef::Single(break_single(2, None)),
        JobDef::Single(plain_single()),
    ]);
    let mut solution = solution_of(Vec::new());
    solution.unassigned = vec![(0, 1), (1, 1)];
    demote_unassigned_breaks(&problem, &mut solution);
    assert_eq!(solution.unassigned, vec![(1, 1)]);
    assert_eq!(solution.ignored, vec![0]);
}

#[test]
fn orphan_breaks_return_to_required() {
    // a break without own location, served at a stop the tour reaches
    // from elsewhere, goes back to the required pool
    let problem = problem_with_jobs(vec![
        JobDef::Single(plain_single()),
        JobDef::Single(break_single(0, None)),
    ]);
    let route = route_of(0, vec![act(None, 0), act(Some(0), 4), act(Some(1), 9)]);
    let mut solution = solution_of(vec![route]);
    remove_orphan_breaks(&problem, &mut solution);
    assert_eq!(solution.required, vec![1]);
}

#[test]
fn located_breaks_stay_out_of_required() {
    // the break is served at the same location as the previous stop
    let problem = problem_with_jobs(vec![
        JobDef::Single(plain_single()),
        JobDef::Single(break_single(0, None)),
    ]);
    let route = route_of(0, vec![act(None, 0), act(Some(0), 4), act(Some(1), 4)]);
    let mut solution = solution_of(vec![route]);
    remove_orphan_breaks(&problem, &mut solution);
    assert!(solution.required.is_empty());
}

fn timed_single(location: usize) -> SingleJob {
    SingleJob {
        places: vec![
            Place { location: Some(location), duration: 3, times: vec![(0, 10), (20, 30)] },
        ],
        is_break: false,
        vehicle_id: None,
    }
}

#[test]
fn unique_details_deduplicated() {
    let d1 = ActorDetail { start: Some(0), end: Some(0) };
    let d2 = ActorDetail { start: Some(1), end: None };
    let details = get_unique_actor_details(&vec![d1, d2, d1]);
    assert_eq!(details, vec![d1, d2]);
}

#[test]
fn decipher_indexes_terminals_and_job_windows() {
    let mut problem = problem_with_jobs(vec![
        JobDef::Single(timed_single(5)),
        JobDef::Multi(vec![timed_single(6), timed_single(7)]),
    ]);
    let d = ActorDetail { start: Some(0), end: Some(1) };
    problem.fleet = vec![d];
    let decipher = AdjacencyMatrixDecipher::new(problem);
    // 2 terminals + 2 windows of job 0 + 2 windows of each sub-job of job 1
    assert_eq!(decipher.dimensions(), 8);
    assert!(decipher.activity_index.contains(&ActivityInfo::Terminal { detail: d, location: 0 }));
    assert!(decipher.activity_index.contains(&ActivityInfo::Terminal { detail: d, location: 1 }));
    assert!(decipher.activity_index.contains(&ActivityInfo::Job {
        job: 1,
        single_idx: 1,
        place_idx: 0,
        tw_idx: 1,
    }));
}

#[test]
fn single_count_by_job_kind() {
    assert_eq!(single_count(&JobDef::Single(timed_single(5))), 1);
    assert_eq!(single_count(&JobDef::Multi(vec![timed_single(5), timed_single(6)])), 2);
}

#[test]
fn activity_place_matched_by_location_duration_and_window() {
    let places =
        vec![Place { location: Some(5), duration: 3, times: vec![(0, 10), (20, 30)] }];
    let mut a = act(Some(0), 5);
    a.duration = 3;
    a.time_start = 20;
    a.time_end = 30;
    assert_eq!(try_match_activity_place(&a, &places), Some((0, 1)));
    a.time_end = 31;
    assert_eq!(try_match_activity_place(&a, &places), None);
}

#[test]
fn activity_info_for_terminal_and_job() {
    let problem = problem_with_jobs(vec![JobDef::Single(timed_single(5))]);
    let d = ActorDetail { start: Some(0), end: Some(1) };
    let terminal = create_activity_info(&problem, d, &act(None, 0));
    assert_eq!(terminal, ActivityInfo::Terminal { detail: d, location: 0 });
    let mut a = act(Some(0), 5);
    a.duration = 3;
    a.time_end = 10;
    let stop = create_activity_info(&problem, d, &a);
    assert_eq!(stop, ActivityInfo::Job { job: 0, single_idx: 0, place_idx: 0, tw_idx: 0 });
}

#[test]
fn pinned_single_job_holds_one_window() {
    let problem = problem_with_jobs(vec![JobDef::Single(timed_single(5))]);
    let info = ActivityInfo::Job { job: 0, single_idx: 0, place_idx: 0, tw_idx: 1 };
    let (job, single) = create_single_job(&problem, &info).unwrap();
    assert_eq!(job, 0);
    assert_eq!(single.places.len(), 1);
    assert_eq!(single.places[0].location, Some(5));
    assert_eq!(single.places[0].times, vec![(20, 30)]);
    let terminal = ActivityInfo::Terminal { detail: ActorDetail { start: None, end: None }, location: 2 };
    assert!(create_single_job(&problem, &terminal).is_none());
}

#[test]
fn inserter_collects_unprocessed_jobs() {
    let problem = problem_with_jobs(vec![
        JobDef::Single(timed_single(5)),
        JobDef::Single(timed_single(6)),
    ]);
    let infos = vec![
        ActivityInfo::Terminal { detail: ActorDetail { start: None, end: None }, location: 0 },
        ActivityInfo::Job { job: 0, single_idx: 0, place_idx: 0, tw_idx: 0 },
        ActivityInfo::Job { job: 1, single_idx: 0, place_idx: 0, tw_idx: 0 },
    ];
    let unprocessed = vec![1];
    let mut inserter = ActivityInfoInserter::new();
    let evaluations = inserter.insert(&problem, &unprocessed, &infos);
    assert_eq!(evaluations.len(), 1);
    assert_eq!(evaluations[0].0, 1);
    assert_eq!(evaluations[0].1.places[0].location, Some(6));
}


#[test]
fn encode_marks_route_legs() {
    // one actor, start terminal at 0, jobs at locations 5 and 6
    let mut problem = problem_with_jobs(vec![
        JobDef::Single(timed_single(5)),
        JobDef::Single(timed_single(6)),
    ]);
    let d = ActorDetail { start: Some(0), end: None };
    problem.fleet = vec![d];
    let mut a1 = act(Some(0), 5);
    a1.duration = 3;
    a1.time_end = 10;
    let mut a2 = act(Some(1), 6);
    a2.duration = 3;
    a2.time_end = 10;
    let route = route_of(0, vec![act(None, 0), a1, a2]);
    let decipher = AdjacencyMatrixDecipher::new(problem);
    let solution = solution_of(vec![route]);
    let matrix = decipher.encode(&solution);
    // index: terminal, then 2 windows per job: entries 0..5
    assert_eq!(matrix.dimensions, 5);
    // start -> job 0 window 0, job 0 -> job 1, both marked with actor 0 + 1
    let start_idx = 0;
    let j0_idx = 1;
    let j1_idx = 3;
    assert_eq!(matrix.get_cell(start_idx, j0_idx), 1);
    assert_eq!(matrix.get_cell(j0_idx, j1_idx), 1);
    let mut nonzero = 0;
    for x in 0..5 {
        for y in 0..5 {
            if matrix.get_cell(x, y) != 0 {
                nonzero += 1;
            }
        }
    }
    assert_eq!(nonzero, 2);
}

#[test]
fn matrix_cells_read_back() {
    let mut m = AdjacencyMatrix::new(3);
    assert_eq!(m.get_cell(1, 2), 0);
    m.set_cell(1, 2, 9);
    assert_eq!(m.get_cell(1, 2), 9);
    assert_eq!(m.get_cell(2, 1), 0);
}


#[test]
fn scan_row_finds_first_mark() {
    let mut m = AdjacencyMatrix::new(4);
    m.set_cell(2, 1, 7);
    m.set_cell(2, 3, 7);
    assert_eq!(m.scan_row(2, 7), Some(1));
    assert_eq!(m.scan_row(0, 7), None);
}

#[test]
fn activity_infos_follow_encoded_legs() {
    let mut problem = problem_with_jobs(vec![
        JobDef::Single(timed_single(5)),
        JobDef::Single(timed_single(6)),
    ]);
    let d = ActorDetail { start: Some(0), end: None };
    problem.fleet = vec![d];
    let mut a1 = act(Some(0), 5);
    a1.duration = 3;
    a1.time_end = 10;
    let mut a2 = act(Some(1), 6);
    a2.duration = 3;
    a2.time_end = 10;
    let route = route_of(0, vec![act(None, 0), a1, a2]);
    let decipher = AdjacencyMatrixDecipher::new(problem);
    let solution = solution_of(vec![route]);
    let matrix = decipher.encode(&solution);
    // index entry 0 is the start terminal; the walk recovers the two stops
    let infos = decipher.get_activity_infos(&matrix, 1, 0);
    assert_eq!(infos.len(), 2);
    assert_eq!(infos[0], ActivityInfo::Job { job: 0, single_idx: 0, place_idx: 0, tw_idx: 0 });
    assert_eq!(infos[1], ActivityInfo::Job { job: 1, single_idx: 0, place_idx: 0, tw_idx: 0 });
}

#[test]
fn forced_removal_on_free_solution() {
    // worst-job removal with no skip and free pools must remove something
    let mut problem = problem_with_jobs(vec![
        JobDef::Single(plain_single()),
        JobDef::Single(plain_single()),
    ]);
    problem.n_locations = 4;
    problem.transport = vec![vec![vec![0i64; 4]; 4]; 1];
    let route = route_of(0, vec![act(None, 0), act(Some(0), 1), act(Some(1), 2), act(None, 3)]);
    let solution = solution_of(vec![route]);
    let ctx = vrp_ruin::model::InsertionContext {
        problem,
        solution,
        random: vrp_ruin::random::DefaultRandom::new(5),
    };
    let out = vrp_ruin::worst_jobs_removal::WorstJobRemoval::new(32, 0, 1, 1).run(ctx);
    assert!(!out.solution.required.is_empty());
}
