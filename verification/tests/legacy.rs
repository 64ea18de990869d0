use trainsched::legacy::maxsat_ddd::{
    maxsat_ddd_assumptions, maxsat_ddd_build, maxsat_ddd_init, maxsat_ddd_intervals_init, maxsat_ddd_refine,
    maxsat_ddd_step, DddAction, FIRST_INTERVAL_END,
};
use trainsched::legacy::maxsat_ti::{maxsat_ti_encode, maxsat_ti_solution, ti_discretization};
use trainsched::maxsatsolver::{External, MaxSatError};
use trainsched::problem::{DelayCostType, Problem, Train, Visit};
use trainsched::solvers::SolverError;

fn two_on_one_resource() -> Problem {
    Problem {
        name: "r".to_string(),
        trains: vec![
            Train { visits: vec![Visit { resource_id: 0, earliest: 0, aimed: Some(0), travel_time: 10 }] },
            Train { visits: vec![Visit { resource_id: 0, earliest: 0, aimed: Some(0), travel_time: 10 }] },
        ],
        conflicts: vec![(0, 0)],
    }
}

#[test]
fn interval_refinement_separates_two_trains() {
    let p = two_on_one_resource();
    let mut st = maxsat_ddd_intervals_init(&p, DelayCostType::FiniteSteps123);
    assert_eq!(st.intervals, vec![vec![(0, FIRST_INTERVAL_END)], vec![(0, FIRST_INTERVAL_END)]]);
    assert_eq!(st.visit_conflicts, vec![(0, 1)]);
    let model = maxsat_ddd_build(&p, &st).unwrap();
    assert_eq!(model.t_vars, vec![vec![1], vec![2]]);
    // Both trains at 0 overlap: each visit gets an interval from the other's end.
    let r = maxsat_ddd_refine(&p, &mut st, &model, &vec![true, true]);
    assert_eq!(r, Ok(None));
    assert_eq!(st.intervals, vec![vec![(0, 10), (10, FIRST_INTERVAL_END)], vec![(0, 10), (10, FIRST_INTERVAL_END)]]);
    let model = maxsat_ddd_build(&p, &st).unwrap();
    assert_eq!(model.t_vars, vec![vec![1, 2], vec![3, 4]]);
    assert_eq!(model.incompat[0][0], vec![(1, 0)]);
    // The first train at 0 and the second at 10 is the schedule.
    let r = maxsat_ddd_refine(&p, &mut st, &model, &vec![true, false, false, true]);
    assert_eq!(r, Ok(Some(vec![vec![0, 10], vec![10, 20]])));
}

#[test]
fn interval_refinement_needs_a_chosen_interval() {
    let p = two_on_one_resource();
    let mut st = maxsat_ddd_intervals_init(&p, DelayCostType::FiniteSteps123);
    let model = maxsat_ddd_build(&p, &st).unwrap();
    assert_eq!(maxsat_ddd_refine(&p, &mut st, &model, &vec![true, false]), Err(SolverError::NoSolution));
    assert_eq!(maxsat_ddd_refine(&p, &mut st, &model, &vec![true]), Err(SolverError::NoSolution));
}

#[test]
fn incremental_refinement_rounds() {
    let p = two_on_one_resource();
    let mut solver = External::new();
    let mut st = maxsat_ddd_init(&mut solver, &p, DelayCostType::FiniteSteps123, true).unwrap();
    assert_eq!(st.occs.len(), 2);
    assert_eq!(st.occs[0].time[0].lit, 1);
    assert_eq!(st.occs[1].time[0].lit, 3);
    assert_eq!(maxsat_ddd_assumptions(&st), vec![-2, -4]);
    // An error of the solver ends the refinement with it.
    match maxsat_ddd_step(&mut solver, &mut st, &p, Err(MaxSatError::Timeout)) {
        DddAction::Fail(e) => assert_eq!(e, SolverError::Timeout),
        _ => panic!("expected a failure"),
    }
    // A model without a chosen interval is no solution.
    match maxsat_ddd_step(&mut solver, &mut st, &p, Ok((0, vec![false, false, false, false]))) {
        DddAction::Fail(e) => assert_eq!(e, SolverError::NoSolution),
        _ => panic!("expected a failure"),
    }
    // Both trains at 0 overlap: new intervals from 10, and another round.
    let bits = vec![true; solver.wcnf.n_vars];
    let mut bits = bits;
    bits[1] = false;
    bits[3] = false;
    match maxsat_ddd_step(&mut solver, &mut st, &p, Ok((0, bits))) {
        DddAction::Solve(a) => assert_eq!(a, maxsat_ddd_assumptions(&st)),
        _ => panic!("expected another round"),
    }
    assert_eq!(st.occs[0].time.len(), 2);
    assert_eq!(st.occs[1].time.len(), 2);
    assert_eq!(st.occs[1].time[1].start, 10);
    // The first train at 0, the second at 10: done.
    let mut bits = vec![false; solver.wcnf.n_vars];
    bits[(st.occs[0].time[0].lit - 1) as usize] = true;
    bits[(st.occs[1].time[1].lit - 1) as usize] = true;
    match maxsat_ddd_step(&mut solver, &mut st, &p, Ok((0, bits))) {
        DddAction::Done(s) => assert_eq!(s, vec![vec![0, 10], vec![10, 20]]),
        _ => panic!("expected a schedule"),
    }
}

#[test]
fn interval_formula_holds_costs_and_exclusions() {
    let p = two_on_one_resource();
    let mut st = maxsat_ddd_intervals_init(&p, DelayCostType::FiniteSteps123);
    let model = maxsat_ddd_build(&p, &st).unwrap();
    assert_eq!(maxsat_ddd_refine(&p, &mut st, &model, &vec![true, true]), Ok(None));
    let model = maxsat_ddd_build(&p, &st).unwrap();
    let clauses: Vec<(Option<u32>, Vec<isize>)> =
        model.solver.wcnf.clauses.iter().map(|c| (c.weight, c.lits.clone())).collect();
    // Starting at 10 is late by 10 and costs 1; starting at 0 costs nothing.
    assert!(clauses.contains(&(Some(1), vec![-2])));
    assert!(clauses.contains(&(Some(1), vec![-4])));
    assert!(!clauses.iter().any(|c| c.0.is_some() && (c.1 == vec![-1] || c.1 == vec![-3])));
    // Both trains starting at 0 overlap, so the two first intervals exclude each other.
    assert!(clauses.contains(&(None, vec![-1, -3])));
    // Exactly one interval per visit.
    assert!(clauses.contains(&(None, vec![1, 2])));
    assert_eq!(model.solver.wcnf.n_vars, 4);
}

#[test]
fn incremental_refinement_runs_out_of_room() {
    // The delay of the new start 10 leaves i32.
    let far = Visit { resource_id: 0, earliest: 0, aimed: Some(i32::MIN + 5), travel_time: 10 };
    let p = Problem {
        name: "far".to_string(),
        trains: vec![Train { visits: vec![far.clone()] }, Train { visits: vec![far] }],
        conflicts: vec![(0, 0)],
    };
    let mut solver = External::new();
    let mut st = maxsat_ddd_init(&mut solver, &p, DelayCostType::FiniteSteps123, true).unwrap();
    let mut bits = vec![true; solver.wcnf.n_vars];
    bits[1] = false;
    bits[3] = false;
    match maxsat_ddd_step(&mut solver, &mut st, &p, Ok((0, bits))) {
        DddAction::Fail(e) => assert_eq!(e, SolverError::OutOfMemory),
        _ => panic!("expected a failure"),
    }
    // Without the overlap the same delays are no trouble.
    let near = Visit { resource_id: 0, earliest: 0, aimed: Some(0), travel_time: 10 };
    let p = Problem {
        name: "near".to_string(),
        trains: vec![Train { visits: vec![near.clone()] }, Train { visits: vec![near] }],
        conflicts: vec![(0, 0)],
    };
    let mut solver = External::new();
    let mut st = maxsat_ddd_init(&mut solver, &p, DelayCostType::FiniteSteps123, true).unwrap();
    let mut bits = vec![true; solver.wcnf.n_vars];
    bits[1] = false;
    bits[3] = false;
    match maxsat_ddd_step(&mut solver, &mut st, &p, Ok((0, bits))) {
        DddAction::Solve(_) => {},
        _ => panic!("expected another round"),
    }
    assert_eq!(st.occs[0].time[1].start, 10);
}

#[test]
fn incremental_refinement_passes_starts_on() {
    let first = Visit { resource_id: 0, earliest: 0, aimed: Some(0), travel_time: 10 };
    let second = Visit { resource_id: 1, earliest: 10, aimed: Some(10), travel_time: 5 };
    let p = Problem {
        name: "on".to_string(),
        trains: vec![Train { visits: vec![first.clone(), second.clone()] }, Train { visits: vec![first, second] }],
        conflicts: vec![(0, 0)],
    };
    let mut solver = External::new();
    let mut st = maxsat_ddd_init(&mut solver, &p, DelayCostType::FiniteSteps123, true).unwrap();
    let mut bits = vec![false; solver.wcnf.n_vars];
    for o in &st.occs {
        bits[(o.time[0].lit - 1) as usize] = true;
    }
    // Both trains enter resource 0 at 0: each first visit gets a start at 10,
    // and each second visit a start at 10 + 10.
    match maxsat_ddd_step(&mut solver, &mut st, &p, Ok((0, bits))) {
        DddAction::Solve(a) => assert_eq!(a, maxsat_ddd_assumptions(&st)),
        _ => panic!("expected another round"),
    }
    for u in 0..4 {
        let starts: Vec<i32> = st.occs[u].time.iter().map(|tp| tp.start).collect();
        if u % 2 == 0 {
            assert_eq!(starts, vec![0, 10]);
        } else {
            assert_eq!(starts, vec![10, 20]);
        }
    }
}

#[test]
fn time_indexed_times_per_visit() {
    let p = Problem {
        name: "d".to_string(),
        trains: vec![Train {
            visits: vec![
                Visit { resource_id: 0, earliest: 7, aimed: None, travel_time: 1 },
                Visit { resource_id: 0, earliest: -7, aimed: None, travel_time: 1 },
            ],
        }],
        conflicts: vec![],
    };
    let d = ti_discretization(&p, 5, 12);
    assert_eq!(d, vec![vec![vec![5, 10, 15], vec![-5, 0]]]);
}

#[test]
fn time_indexed_formula_and_schedule() {
    let p = two_on_one_resource();
    let times = vec![vec![vec![0, 10]], vec![vec![0, 10]]];
    let mut solver = External::new();
    let tv = maxsat_ti_encode(&mut solver, &p, DelayCostType::FiniteSteps123, &times).unwrap();
    assert_eq!(tv, vec![vec![vec![(0, 1), (10, 2)]], vec![vec![(0, 3), (10, 4)]]]);
    let clauses: Vec<(Option<u32>, Vec<isize>)> = solver.wcnf.clauses.iter().map(|c| (c.weight, c.lits.clone())).collect();
    // The times at 10 cost one step of delay; those at 0 cost nothing.
    assert!(clauses.contains(&(Some(1), vec![-2])));
    assert!(clauses.contains(&(Some(1), vec![-4])));
    assert!(!clauses.iter().any(|c| c.1 == vec![-1] || c.1 == vec![-3]));
    // Both at 0 or both at 10 overlap; 0 and 10 do not.
    assert!(clauses.contains(&(None, vec![-1, -3])));
    assert!(clauses.contains(&(None, vec![-2, -4])));
    assert!(!clauses.contains(&(None, vec![-1, -4])));
    assert!(!clauses.contains(&(None, vec![-2, -3])));
    let mut bits = vec![false; solver.wcnf.n_vars];
    bits[0] = true;
    bits[3] = true;
    assert_eq!(maxsat_ti_solution(&p, &tv, &bits), Some(vec![vec![0, 10], vec![10, 20]]));
    bits[1] = true;
    assert_eq!(maxsat_ti_solution(&p, &tv, &bits), None);
}
