use trainsched::stats::{problem_counts, ProblemCounts};
use trainsched::export_lp::ti::{ti_in_range, write_ti_lp};
use trainsched::export_lp::{bigm_in_range, resources_in_range, visit_conflicts, write_bigm_lp, ExportStats};
use trainsched::problem::{DelayCostType, Problem, Train, Visit};

fn visit(resource_id: usize, earliest: i32, aimed: Option<i32>, travel_time: i32) -> Visit {
    Visit { resource_id, earliest, aimed, travel_time }
}

fn two_trains() -> Problem {
    Problem {
        name: "p".to_string(),
        trains: vec![
            Train { visits: vec![visit(1, 0, None, 10), visit(0, 10, Some(20), 0)] },
            Train { visits: vec![visit(1, 5, None, 10), visit(0, 15, None, 0)] },
        ],
        conflicts: vec![(1, 1)],
    }
}

#[test]
fn conflicting_visit_pairs() {
    let p = two_trains();
    assert_eq!(visit_conflicts(&p), vec![((0, 0), (1, 0))]);
    let mut q = two_trains();
    q.conflicts = vec![(0, 1)];
    assert_eq!(visit_conflicts(&q), vec![((0, 0), (1, 1)), ((0, 1), (1, 0))]);
}

#[test]
fn bigm_model_text() {
    let p = two_trains();
    let (lines, stats) = write_bigm_lp(&p, DelayCostType::FiniteSteps123);
    let expected = vec![
        "\\ TRP BigM MILP, exported by export_lp.rs",
        "Minimize",
        " obj:",
        "    1 thr_0_1_0 + 1 thr_0_1_180 + 1 thr_0_1_360",
        "Subject To",
        " c0: t_0_1 - t_0_0 >= 10",
        " c1: t_1_1 - t_1_0 >= 10",
        " c2: t_0_1 - t_1_0 + 43200 y_0_0_1_0 <= 43200",
        " c3: t_1_1 - t_0_0 - 43200 y_0_0_1_0 <= 0",
        " c4: t_0_1 - 43200 thr_0_1_0 <= 20",
        " c5: t_0_1 - 43200 thr_0_1_180 <= 200",
        " c6: t_0_1 - 43200 thr_0_1_360 <= 380",
        "Bounds",
        " 0 <= t_0_0 <= 43200",
        " 10 <= t_0_1 <= 43200",
        " 5 <= t_1_0 <= 43200",
        " 15 <= t_1_1 <= 43200",
        "Binary",
        " y_0_0_1_0",
        " thr_0_1_360",
        " thr_0_1_180",
        " thr_0_1_0",
        "End",
    ];
    assert_eq!(lines, expected);
    assert_eq!(
        stats,
        ExportStats { n_vars: 8, n_constraints: 7, n_travel: 2, n_resource: 2, n_intervals: 0 }
    );
}

#[test]
fn bigm_model_with_step_and_continuous_costs() {
    let p = two_trains();
    let (lines, stats) = write_bigm_lp(&p, DelayCostType::InfiniteSteps180);
    assert_eq!(lines[3], "    1 steps_0_1");
    assert_eq!(lines[9], " c4: t_0_1 - 180 steps_0_1 <= 20");
    assert_eq!(&lines[lines.len() - 3..], &["General".to_string(), " steps_0_1".to_string(), "End".to_string()]);
    assert_eq!(stats.n_vars, 4 + 1 + 1);
    let (lines, stats) = write_bigm_lp(&p, DelayCostType::Continuous);
    assert_eq!(lines[3], "    1 delay_0_1");
    assert_eq!(lines[9], " c4: t_0_1 - delay_0_1 <= 20");
    assert!(lines.contains(&" 0 <= delay_0_1 <= 43200".to_string()));
    assert_eq!(stats.n_vars, 4 + 1 + 1);
    assert_eq!(stats.n_constraints, 5);
}

#[test]
fn time_indexed_model_text() {
    let p = two_trains();
    let (lines, stats) = write_ti_lp(&p, DelayCostType::FiniteSteps123, 10, 30);
    let mut expected = vec![
        "\\ TRP MILP-TI, exported by export_lp.rs".to_string(),
        "\\ interval=10s, big_m_range=30s".to_string(),
        "Minimize".to_string(),
        " obj:".to_string(),
        "    1 x_0_1_30".to_string(),
        "Subject To".to_string(),
        " c0: x_0_0_0 + x_0_0_10 + x_0_0_20 = 1".to_string(),
        " c1: x_0_1_10 + x_0_1_20 + x_0_1_30 = 1".to_string(),
        " c2: x_1_0_10 + x_1_0_20 + x_1_0_30 = 1".to_string(),
        " c3: x_1_1_20 + x_1_1_30 + x_1_1_40 = 1".to_string(),
        " c4: x_0_0_20 + x_0_1_10 + x_0_1_20 <= 1".to_string(),
        " c5: x_1_0_30 + x_1_1_20 + x_1_1_30 <= 1".to_string(),
        " c6: x_0_0_10 + x_1_0_10 <= 1".to_string(),
        " c7: x_0_0_20 + x_1_0_20 <= 1".to_string(),
        " c8: x_1_0_10 + x_0_0_10 <= 1".to_string(),
        " c9: x_1_0_20 + x_0_0_20 <= 1".to_string(),
        "Binary".to_string(),
    ];
    for (t, v, slots) in [(0, 0, [0, 10, 20]), (0, 1, [10, 20, 30]), (1, 0, [10, 20, 30]), (1, 1, [20, 30, 40])] {
        for s in slots {
            expected.push(format!(" x_{}_{}_{}", t, v, s));
        }
    }
    expected.push("End".to_string());
    assert_eq!(lines, expected);
    assert_eq!(
        stats,
        ExportStats { n_vars: 12, n_constraints: 10, n_travel: 2, n_resource: 4, n_intervals: 12 }
    );
}

#[test]
fn problem_counts_of_two_trains() {
    let p = two_trains();
    assert_eq!(
        problem_counts(&p),
        Some(ProblemCounts { trains: 2, conflicts: 1, exclusive_visits: 2, conflicting_visit_pairs: 1 })
    );
    let mut q = two_trains();
    q.conflicts = vec![(0, 1)];
    assert_eq!(
        problem_counts(&q),
        Some(ProblemCounts { trains: 2, conflicts: 1, exclusive_visits: 0, conflicting_visit_pairs: 1 })
    );
    let mut r = two_trains();
    r.trains[0].visits[0].resource_id = usize::MAX;
    assert_eq!(problem_counts(&r), None);
}

#[test]
fn export_ranges_are_checked() {
    let p = two_trains();
    assert!(resources_in_range(&p));
    assert!(bigm_in_range(&p, DelayCostType::FiniteSteps123));
    let mut q = two_trains();
    q.trains[0].visits[0].aimed = Some(i32::MAX - 100);
    assert!(!bigm_in_range(&q, DelayCostType::FiniteSteps123));
    // Without thresholds there is nothing to add.
    assert!(bigm_in_range(&q, DelayCostType::Continuous));
    q.trains[1].visits[0].resource_id = usize::MAX;
    assert!(!resources_in_range(&q));
}

#[test]
fn ti_ranges_are_checked() {
    let p = two_trains();
    assert!(ti_in_range(&p, 10, 900));
    assert!(!ti_in_range(&p, 0, 900));
    // The grid would run past the end of `i32`.
    assert!(!ti_in_range(&p, 10, i32::MAX - 5));
    let mut q = two_trains();
    q.trains[0].visits[1].aimed = Some(i32::MIN + 5);
    // The delay of a grid time against the aimed time overflows.
    assert!(!ti_in_range(&q, 10, 900));
}
