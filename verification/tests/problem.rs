use trainsched::greedy::schedule::greedy_schedule;
use trainsched::problem::{
    infinite_staircase, iter_infinite_staircase, problem1, problem1_with_stations, DelayCostThresholds,
    solution_checkable, DelayCostType, Problem, SolutionViolation, Train, Visit,
};

fn v(resource_id: usize, earliest: i32, aimed: Option<i32>, travel_time: i32) -> Visit {
    Visit { resource_id, earliest, aimed, travel_time }
}

#[test]
fn thresholds_eval_first_exceeded() {
    let f = DelayCostThresholds::f123();
    assert_eq!(f.eval(0), 0);
    assert_eq!(f.eval(1), 1);
    assert_eq!(f.eval(180), 1);
    assert_eq!(f.eval(181), 2);
    assert_eq!(f.eval(361), 3);
    assert_eq!(DelayCostThresholds::f12345().eval(1081), 5);
    assert_eq!(DelayCostThresholds::f139().eval(400), 9);
    assert_eq!(DelayCostThresholds::f1_3min().eval(301), 1);
    assert_eq!(DelayCostThresholds::f1_3min().eval(300), 0);
    assert_eq!(DelayCostThresholds::f1_5min().eval(181), 1);
    assert_eq!(f.step_delays(), vec![361, 181, 1]);
}

#[test]
fn staircase_rounds_up() {
    assert_eq!(infinite_staircase(0, 60), 0);
    assert_eq!(infinite_staircase(1, 60), 1);
    assert_eq!(infinite_staircase(60, 60), 1);
    assert_eq!(infinite_staircase(61, 60), 2);
    assert_eq!(infinite_staircase(-5, 60), 0);
    assert_eq!(infinite_staircase(5, 0), usize::MAX);
    assert_eq!(infinite_staircase(0, 0), 0);
    assert_eq!(iter_infinite_staircase(60, 3), vec![(1, 1), (61, 2), (121, 3)]);
}

#[test]
fn visit_costs_and_thresholds() {
    let t = Train { visits: vec![v(0, 0, Some(100), 5), v(1, 0, None, 5)] };
    assert_eq!(t.visit_delay_cost(DelayCostType::Continuous, 0, 130), 30);
    assert_eq!(t.visit_delay_cost(DelayCostType::Continuous, 0, 90), 0);
    assert_eq!(t.visit_delay_cost(DelayCostType::FiniteSteps123, 0, 300), 2);
    assert_eq!(t.visit_delay_cost(DelayCostType::InfiniteSteps60, 0, 221), 3);
    assert_eq!(t.visit_delay_cost(DelayCostType::Continuous, 1, 1000), 0);
    assert_eq!(
        t.visit_cost_threshold_times(DelayCostType::FiniteSteps123, 0, 150),
        vec![461, 281]
    );
    assert!(t.visit_cost_threshold_times(DelayCostType::Continuous, 0, 0).is_empty());
    assert!(t.visit_cost_threshold_times(DelayCostType::FiniteSteps123, 1, 0).is_empty());
    let inf = t.visit_cost_threshold_times(DelayCostType::InfiniteSteps180, 0, 0);
    assert_eq!(inf.len(), 100);
    assert_eq!(inf[0], 101);
    assert_eq!(inf[1], 281);
}

fn two_trains() -> Problem {
    Problem {
        name: "two".to_string(),
        trains: vec![
            Train { visits: vec![v(0, 0, Some(0), 5), v(1, 5, Some(5), 2)] },
            Train { visits: vec![v(0, 3, Some(3), 4)] },
        ],
        conflicts: vec![(0, 0)],
    }
}

#[test]
fn cost_sums_delays() {
    let p = two_trains();
    let sol = vec![vec![0, 5, 7], vec![5, 9]];
    assert_eq!(p.cost(&sol, DelayCostType::Continuous), 2);
    assert_eq!(p.train_cost(&sol, DelayCostType::Continuous, 1), 2);
    assert_eq!(p.train_cost(&sol, DelayCostType::Continuous, 0), 0);
    assert_eq!(p.cost(&sol, DelayCostType::FiniteSteps123), 1);
}

#[test]
fn verify_accepts_feasible_solution() {
    let p = two_trains();
    let sol = vec![vec![0, 5, 7], vec![5, 9]];
    assert_eq!(p.verify_solution(&sol, DelayCostType::Continuous), Ok(2));
}

#[test]
fn verify_reports_each_violation() {
    let p = two_trains();
    let early = vec![vec![0, 5, 7], vec![-8, 9]];
    assert_eq!(
        p.verify_solution(&early, DelayCostType::Continuous),
        Err(SolutionViolation::EarliestEntry { train_idx: 1, visit_idx: 0 })
    );
    let fast = vec![vec![0, 4, 7], vec![5, 9]];
    assert_eq!(
        p.verify_solution(&fast, DelayCostType::Continuous),
        Err(SolutionViolation::TravelTime { train_idx: 0, visit_idx: 0 })
    );
    let overlap = vec![vec![0, 5, 7], vec![3, 7]];
    assert_eq!(
        p.verify_solution(&overlap, DelayCostType::Continuous),
        Err(SolutionViolation::ResourceConflict { train_idx1: 0, visit_idx1: 0, train_idx2: 1, visit_idx2: 0 })
    );
    // Touching within one second is no conflict.
    let touching = vec![vec![0, 5, 7], vec![4, 9]];
    assert_eq!(p.verify_solution(&touching, DelayCostType::Continuous), Ok(1));
}

#[test]
fn example_problems_have_their_shape() {
    let p = problem1();
    assert_eq!(p.trains.len(), 4);
    assert_eq!(p.conflicts, (0..=6).map(|i| (i, i)).collect::<Vec<_>>());
    assert_eq!(p.trains[0].visits[1].resource_id, 1);
    assert_eq!(p.trains[0].visits[1].travel_time, 3);
    let q = problem1_with_stations();
    assert_eq!(q.trains[0].visits.len(), 5);
    assert_eq!(q.trains[0].visits[1].resource_id, 7);
    assert_eq!(q.name, "Unnamed");
}

#[test]
fn greedy_schedule_is_feasible_on_examples() {
    for p in [problem1(), problem1_with_stations(), two_trains()] {
        let sol = greedy_schedule(&p);
        assert_eq!(sol.len(), p.trains.len());
        assert!(p.verify_solution(&sol, DelayCostType::FiniteSteps123).is_ok());
    }
}

#[test]
fn greedy_schedule_orders_conflicting_visits() {
    let p = two_trains();
    let sol = greedy_schedule(&p);
    assert_eq!(sol, vec![vec![0, 5, 7], vec![5, 9]]);
}

#[test]
fn solution_checkable_needs_shape_and_range() {
    let p = two_trains();
    assert!(solution_checkable(&p, &[vec![0, 5, 7], vec![5, 9]]));
    // One row per train, one more time than visits.
    assert!(!solution_checkable(&p, &[vec![0, 5, 7]]));
    assert!(!solution_checkable(&p, &[vec![0, 5], vec![5, 9]]));
    assert!(!solution_checkable(&p, &[vec![0, 5, 7], vec![]]));
    // An entry time whose travel time overflows cannot be checked.
    assert!(!solution_checkable(&p, &[vec![i32::MAX, 5, 7], vec![5, 9]]));
    // An exit time at the very bottom of the range cannot be checked.
    assert!(!solution_checkable(&p, &[vec![0, 5, 7], vec![5, i32::MIN]]));
}

#[test]
fn greedy_schedule_separates_a_listed_conflicting_pair() {
    let p = Problem {
        name: "g".to_string(),
        trains: vec![
            Train { visits: vec![Visit { resource_id: 0, earliest: 0, aimed: Some(0), travel_time: 10 }] },
            Train { visits: vec![Visit { resource_id: 1, earliest: 0, aimed: Some(0), travel_time: 10 }] },
        ],
        conflicts: vec![(0, 1)],
    };
    let sol = greedy_schedule(&p);
    assert_eq!(sol, vec![vec![0, 10], vec![10, 20]]);
    assert!(p.verify_solution(&sol, DelayCostType::Continuous).is_ok());
}

#[test]
fn greedy_schedule_lets_visits_to_an_unlisted_resource_overlap() {
    let p = Problem {
        name: "s".to_string(),
        trains: vec![
            Train { visits: vec![Visit { resource_id: 3, earliest: 2, aimed: None, travel_time: 4 }] },
            Train { visits: vec![Visit { resource_id: 3, earliest: 0, aimed: None, travel_time: 5 }] },
        ],
        conflicts: vec![],
    };
    assert_eq!(greedy_schedule(&p), vec![vec![2, 6], vec![0, 5]]);
}

#[test]
fn threshold_costs_rise_with_delay_and_at_each_step() {
    let t = DelayCostThresholds::f12345();
    let steps = t.step_delays();
    assert_eq!(steps, vec![1081, 721, 361, 181, 1]);
    let costs = [5usize, 4, 3, 2, 1];
    for (i, &d) in steps.iter().enumerate() {
        assert_eq!(t.eval(d), costs[i]);
        assert!(t.eval(d - 1) < t.eval(d));
    }
    assert_eq!(t.eval(0), 0);
    assert_eq!(t.eval(-5), 0);
    let mut last = 0;
    for d in -10..1200 {
        let c = t.eval(d);
        assert!(c >= last);
        last = c;
    }
}

#[test]
fn staircase_levels_begin_after_each_interval() {
    for x in 0..5i32 {
        assert_eq!(infinite_staircase(60 * x + 1, 60), (x + 1) as usize);
        assert_eq!(infinite_staircase(60 * x, 60), x as usize);
    }
    assert_eq!(iter_infinite_staircase(60, 3), vec![(1, 1), (61, 2), (121, 3)]);
}

#[test]
fn delay_cost_never_falls_with_later_entry() {
    let t = Train { visits: vec![Visit { resource_id: 0, earliest: 0, aimed: Some(100), travel_time: 5 }] };
    let types = [
        DelayCostType::FiniteSteps1_3Min,
        DelayCostType::FiniteSteps1_5Min,
        DelayCostType::FiniteSteps123,
        DelayCostType::FiniteSteps12345,
        DelayCostType::FiniteSteps139,
        DelayCostType::InfiniteSteps60,
        DelayCostType::InfiniteSteps180,
        DelayCostType::InfiniteSteps360,
        DelayCostType::Continuous,
    ];
    for ty in types {
        let mut last = 0;
        for time in [-50, 0, 100, 101, 280, 281, 460, 1000, 2000] {
            let c = t.visit_delay_cost(ty, 0, time);
            assert!(c >= last);
            if time <= 100 {
                assert_eq!(c, 0);
            }
            last = c;
        }
    }
}

#[test]
fn cost_rises_at_each_threshold_time() {
    let t = Train { visits: vec![v(0, 0, Some(100), 5)] };
    let all = [
        DelayCostType::FiniteSteps1_3Min,
        DelayCostType::FiniteSteps1_5Min,
        DelayCostType::FiniteSteps123,
        DelayCostType::FiniteSteps12345,
        DelayCostType::FiniteSteps139,
        DelayCostType::InfiniteSteps60,
        DelayCostType::InfiniteSteps180,
        DelayCostType::InfiniteSteps360,
    ];
    for ty in all {
        let times = t.visit_cost_threshold_times(ty, 0, 150);
        assert!(!times.is_empty());
        for &x in &times {
            assert!(x > 150);
            assert!(t.visit_delay_cost(ty, 0, x) > t.visit_delay_cost(ty, 0, x - 1));
        }
    }
    for ty in &all[..5] {
        let times = t.visit_cost_threshold_times(*ty, 0, 150);
        for x in 151..3000 {
            if t.visit_delay_cost(*ty, 0, x) > t.visit_delay_cost(*ty, 0, x - 1) {
                assert!(times.contains(&x));
            }
        }
    }
}

#[test]
fn staircase_steps_begin_cost_levels() {
    let steps = iter_infinite_staircase(180, 4);
    assert_eq!(steps, vec![(1, 1), (181, 2), (361, 3), (541, 4)]);
    for (x, &(d, level)) in steps.iter().enumerate() {
        assert_eq!(infinite_staircase(d, 180), level);
        assert_eq!(infinite_staircase(d - 1, 180), x);
    }
}
