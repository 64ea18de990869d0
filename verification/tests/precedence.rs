use trainsched::precedence::{chain_earliest, find_forced_orders, propagate_bounds, tighten_ub_from_cost};
use trainsched::problem::{DelayCostType, Problem, Train, Visit};

fn make_visit(resource_id: usize, earliest: i32, aimed: i32, travel_time: i32) -> Visit {
    Visit { resource_id, earliest, aimed: Some(aimed), travel_time }
}

/// One train with three visits: lower bounds propagate along the chain.
#[test]
fn test_chain_earliest_propagates() {
    let problem = Problem {
        name: "T01".into(),
        trains: vec![Train {
            visits: vec![
                make_visit(0, 10, 10, 5),
                make_visit(1, 8, 8, 3),
                make_visit(2, 20, 20, 0),
            ],
        }],
        conflicts: vec![],
    };

    let lb = chain_earliest(&problem);
    // v0: 10, v1: max(8, 10+5)=15, v2: max(20, 15+3)=20
    assert_eq!(lb[0], vec![10, 15, 20]);
}

/// Only one order is possible: it is detected as forced.
#[test]
fn test_forced_order_detected() {
    let problem = Problem {
        name: "T03".into(),
        trains: vec![
            Train { visits: vec![make_visit(0, 10, 10, 5)] },
            Train { visits: vec![make_visit(0, 5, 5, 3)] },
        ],
        conflicts: vec![(0, 0)],
    };

    let lb = vec![vec![10], vec![5]];
    let ub = vec![vec![20], vec![13]];

    let (forced, infeasible) = find_forced_orders(&problem, &lb, &ub);
    assert!(!infeasible, "the problem is still feasible");
    assert_eq!(forced.len(), 1, "exactly one forced order");
    assert_eq!(forced[0].first, (1, 0));
    assert_eq!(forced[0].second, (0, 0));
}

/// Continuous cost: the budget left for each visit becomes its latest start.
#[test]
fn test_tighten_ub_continuous() {
    let problem = Problem {
        name: "T06".into(),
        trains: vec![
            Train { visits: vec![make_visit(0, 100, 100, 0)] },
            Train { visits: vec![make_visit(1, 200, 200, 0)] },
        ],
        conflicts: vec![],
    };

    let lb = vec![vec![100], vec![210]];
    let ub = vec![vec![i32::MAX], vec![i32::MAX]];

    let ub2 = tighten_ub_from_cost(&problem, DelayCostType::Continuous, &lb, ub, 50);

    assert_eq!(ub2[0][0], 140);
    assert_eq!(ub2[1][0], 250);
}

#[test]
fn forced_orders_both_impossible_is_infeasible() {
    let problem = Problem {
        name: "inf".into(),
        trains: vec![
            Train { visits: vec![make_visit(0, 10, 10, 5)] },
            Train { visits: vec![make_visit(0, 10, 10, 5)] },
        ],
        conflicts: vec![(0, 0)],
    };
    let lb = vec![vec![10], vec![10]];
    let ub = vec![vec![12], vec![12]];
    let (forced, infeasible) = find_forced_orders(&problem, &lb, &ub);
    assert!(infeasible);
    assert!(forced.is_empty());
}

#[test]
fn propagate_bounds_forward_and_backward() {
    let problem = Problem {
        name: "pb".into(),
        trains: vec![Train {
            visits: vec![make_visit(0, 0, 0, 5), make_visit(1, 0, 0, 7), make_visit(2, 0, 0, 0)],
        }],
        conflicts: vec![],
    };
    let lb = vec![vec![3, 0, 0]];
    let ub = vec![vec![100, 100, 50]];
    let (lb2, ub2) = propagate_bounds(&problem, lb, ub);
    assert_eq!(lb2[0], vec![3, 8, 15]);
    assert_eq!(ub2[0], vec![38, 43, 50]);
}

#[test]
fn propagate_bounds_saturates() {
    let problem = Problem {
        name: "sat".into(),
        trains: vec![Train { visits: vec![make_visit(0, 0, 0, 10), make_visit(1, 0, 0, 0)] }],
        conflicts: vec![],
    };
    let (lb2, ub2) = propagate_bounds(&problem, vec![vec![i32::MAX - 3, 0]], vec![vec![0, i32::MIN + 2]]);
    assert_eq!(lb2[0], vec![i32::MAX - 3, i32::MAX]);
    assert_eq!(ub2[0], vec![i32::MIN, i32::MIN + 2]);
}

#[test]
fn tighten_ub_finite_steps_unchanged() {
    let problem = Problem {
        name: "fin".into(),
        trains: vec![Train { visits: vec![make_visit(0, 100, 100, 0)] }],
        conflicts: vec![],
    };
    let ub = tighten_ub_from_cost(&problem, DelayCostType::FiniteSteps123, &[vec![100]], vec![vec![500]], 1);
    assert_eq!(ub, vec![vec![500]]);
}

#[test]
fn tighten_ub_infinite_steps() {
    let problem = Problem {
        name: "inf60".into(),
        trains: vec![Train { visits: vec![make_visit(0, 100, 100, 0)] }],
        conflicts: vec![],
    };
    // Budget 2 steps of 60 seconds from the aimed time 100.
    let ub = tighten_ub_from_cost(&problem, DelayCostType::InfiniteSteps60, &[vec![100]], vec![vec![i32::MAX]], 2);
    assert_eq!(ub, vec![vec![220]]);
}

#[test]
fn propagate_bounds_twice_changes_nothing() {
    let problem = Problem {
        name: "pb".into(),
        trains: vec![Train {
            visits: vec![make_visit(0, 0, 0, 5), make_visit(1, 0, 0, 7), make_visit(2, 0, 0, 0)],
        }],
        conflicts: vec![],
    };
    let (lb2, ub2) = propagate_bounds(&problem, vec![vec![3, 0, 0]], vec![vec![100, 100, 50]]);
    let (lb3, ub3) = propagate_bounds(&problem, lb2.clone(), ub2.clone());
    assert_eq!(lb3, lb2);
    assert_eq!(ub3, ub2);
}

#[test]
fn tightening_keeps_schedules_within_budget() {
    let problem = Problem {
        name: "tb".into(),
        trains: vec![Train { visits: vec![make_visit(0, 0, 0, 5), make_visit(1, 0, 20, 0)] }],
        conflicts: vec![],
    };
    let lb = vec![vec![0, 5]];
    let ub = vec![vec![100, 100]];
    let tightened = tighten_ub_from_cost(&problem, DelayCostType::Continuous, &lb, ub, 10);
    assert_eq!(tightened, vec![vec![10, 30]]);
    // A schedule of cost at most 10 between the bounds stays below them.
    let x = vec![vec![7, 23]];
    assert!(problem.cost(&x, DelayCostType::Continuous) <= 10);
    assert!(x[0][0] <= tightened[0][0] && x[0][1] <= tightened[0][1]);
}

#[test]
fn tighten_ub_negative_budget_keeps_bounds() {
    let problem = Problem {
        name: "neg".into(),
        trains: vec![
            Train { visits: vec![make_visit(0, 100, 100, 0)] },
            Train { visits: vec![make_visit(1, 300, 200, 0)] },
        ],
        conflicts: vec![],
    };
    // The second visit pays 100 at its lower bound, which leaves the first
    // one a budget below zero; the second keeps the whole budget of 50.
    let ub = tighten_ub_from_cost(&problem, DelayCostType::Continuous, &[vec![100], vec![300]], vec![vec![1000], vec![1000]], 50);
    assert_eq!(ub, vec![vec![1000], vec![250]]);
    let ub = tighten_ub_from_cost(&problem, DelayCostType::Continuous, &[vec![100], vec![300]], vec![vec![1000], vec![1000]], -5);
    assert_eq!(ub, vec![vec![1000], vec![1000]]);
}
