use trainsched::ddd::common::{Occ, VisitId};
use trainsched::ddd::costtree::CostTree;
use trainsched::ddd::lits::BoolLit;
use trainsched::ddd::refinement::{PackageAction, ViolationAgeTracker, ViolationId};
use trainsched::ddd::rounds::{
    lit_value, mark_touched, read_incumbent, read_incumbents, resource_packages, sat_ddd_round, travel_ends_fit,
    travel_packages, RoundOutcome,
};
use trainsched::problem::{Problem, Train, Visit};

fn occupation(earliest: i32) -> Occ {
    Occ {
        cost: vec![BoolLit::Const(true)],
        cost_tree: CostTree::new(),
        delays: vec![(BoolLit::Const(true), earliest), (BoolLit::Const(false), i32::MAX)],
        incumbent_idx: 0,
    }
}

fn ladder() -> Occ {
    Occ {
        cost: vec![BoolLit::Const(true)],
        cost_tree: CostTree::new(),
        delays: vec![
            (BoolLit::Const(true), 0),
            (BoolLit::Lit(1), 5),
            (BoolLit::Lit(2), 9),
            (BoolLit::Const(false), i32::MAX),
        ],
        incumbent_idx: 0,
    }
}

/// Train 0 visits resource 1 then resource 0; train 1 visits resource 0,
/// which conflicts with itself.
fn problem(second_travel: i32, other_earliest: i32) -> Problem {
    Problem {
        name: "p".to_string(),
        trains: vec![
            Train {
                visits: vec![
                    Visit { resource_id: 1, earliest: 0, aimed: None, travel_time: second_travel },
                    Visit { resource_id: 0, earliest: 5, aimed: None, travel_time: 3 },
                ],
            },
            Train { visits: vec![Visit { resource_id: 0, earliest: other_earliest, aimed: None, travel_time: 4 }] },
        ],
        conflicts: vec![(0, 0)],
    }
}

fn visits() -> Vec<(usize, usize)> {
    vec![(0, 0), (0, 1), (1, 0)]
}

fn resource_visits() -> Vec<Vec<VisitId>> {
    vec![vec![VisitId(1), VisitId(2)], vec![VisitId(0)]]
}

fn conflicts() -> Vec<Vec<usize>> {
    vec![vec![0], vec![]]
}

#[test]
fn literal_values_in_a_model() {
    let bits = vec![true, false];
    assert!(lit_value(&bits, BoolLit::Const(true)));
    assert!(lit_value(&bits, BoolLit::Lit(1)));
    assert!(!lit_value(&bits, BoolLit::Lit(-1)));
    assert!(!lit_value(&bits, BoolLit::Lit(2)));
    assert!(!lit_value(&bits, BoolLit::Lit(3)));
    assert!(lit_value(&bits, BoolLit::Lit(-3)));
}

#[test]
fn current_solution_follows_the_model() {
    let mut o = ladder();
    assert!(read_incumbent(&mut o, &vec![true, false]));
    assert_eq!(o.incumbent_idx, 1);
    assert!(read_incumbent(&mut o, &vec![true, true]));
    assert_eq!(o.incumbent_idx, 2);
    assert!(!read_incumbent(&mut o, &vec![true, true]));
    assert!(read_incumbent(&mut o, &vec![false, false]));
    assert_eq!(o.incumbent_idx, 0);
    let mut occs = vec![ladder(), occupation(3)];
    assert_eq!(read_incumbents(&mut occs, &vec![true, true]), vec![true, false]);
    assert_eq!(occs[0].incumbent_idx, 2);
}

#[test]
fn moved_visits_touch_their_predecessor() {
    let mut touched = Vec::new();
    mark_touched(&visits(), &vec![false, true, true], &mut touched);
    assert_eq!(touched, vec![VisitId(0), VisitId(1), VisitId(2)]);
    let mut touched = vec![VisitId(0)];
    mark_touched(&visits(), &vec![false, true, false], &mut touched);
    assert_eq!(touched, vec![VisitId(0), VisitId(1)]);
}

#[test]
fn broken_travel_time_gives_a_package() {
    let p = problem(10, 0);
    let occs = vec![occupation(0), occupation(5), occupation(0)];
    let mut tracker = ViolationAgeTracker::new();
    let touched = vec![VisitId(0), VisitId(1), VisitId(2)];
    let pkgs = travel_packages(&p, &visits(), &occs, &touched, &mut tracker, 3);
    assert_eq!(pkgs.len(), 1);
    assert_eq!(pkgs[0].violation, ViolationId::TravelTime(VisitId(0)));
    assert_eq!(pkgs[0].planned_points, vec![(VisitId(1), 10)]);
    assert_eq!(pkgs[0].first_seen, 3);
    match pkgs[0].action {
        PackageAction::TravelTime { t1_in_var, next_visit, new_t } => {
            assert_eq!(t1_in_var, BoolLit::Const(true));
            assert_eq!(next_visit, VisitId(1));
            assert_eq!(new_t, 10);
        },
        _ => panic!("expected a travel-time package"),
    }
    // Seen again later, it keeps its first iteration.
    let pkgs = travel_packages(&p, &visits(), &occs, &touched, &mut tracker, 7);
    assert_eq!(pkgs[0].first_seen, 3);
    // Within its travel time, nothing is broken.
    let p = problem(5, 0);
    let pkgs = travel_packages(&p, &visits(), &occs, &touched, &mut tracker, 8);
    assert_eq!(pkgs.len(), 0);
}

#[test]
fn overlap_on_a_resource_gives_one_package_per_train_pair() {
    let p = problem(5, 6);
    let occs = vec![occupation(0), occupation(5), occupation(6)];
    let mut tracker = ViolationAgeTracker::new();
    let mut touched = vec![VisitId(0), VisitId(1), VisitId(2)];
    let pkgs = resource_packages(&p, &visits(), &occs, &resource_visits(), &conflicts(), &mut touched, &mut tracker, 1);
    assert_eq!(pkgs.len(), 1);
    assert_eq!(pkgs[0].violation, ViolationId::Resource(VisitId(1), VisitId(2)));
    assert_eq!(pkgs[0].planned_points, vec![(VisitId(2), 8), (VisitId(1), 10)]);
    match pkgs[0].action {
        PackageAction::Resource { visit1, visit2, tp_for_v2, tp_for_v1, t1_out_lit, t2_out_lit } => {
            assert_eq!((visit1, visit2), (VisitId(1), VisitId(2)));
            assert_eq!((tp_for_v2, tp_for_v1), (8, 10));
            assert_eq!((t1_out_lit, t2_out_lit), (BoolLit::Const(true), BoolLit::Const(true)));
        },
        _ => panic!("expected a resource package"),
    }
    // The second visit of the pair stays touched for the next round.
    assert_eq!(touched, vec![VisitId(2)]);
    // Apart, the two visits give nothing, and nothing stays touched.
    let occs = vec![occupation(0), occupation(5), occupation(8)];
    let mut touched = vec![VisitId(1), VisitId(2)];
    let pkgs = resource_packages(&p, &visits(), &occs, &resource_visits(), &conflicts(), &mut touched, &mut tracker, 2);
    assert_eq!(pkgs.len(), 0);
    assert_eq!(touched, Vec::<VisitId>::new());
}

#[test]
fn round_refines_then_ends_with_the_current_solution() {
    let p = problem(10, 0);
    let mut occs = vec![occupation(0), occupation(5), occupation(0)];
    let mut touched = vec![VisitId(0), VisitId(1), VisitId(2)];
    let mut tracker = ViolationAgeTracker::new();
    match sat_ddd_round(&p, &visits(), &mut occs, &resource_visits(), &conflicts(), &mut touched, &mut tracker, 1, None, &vec![]) {
        RoundOutcome::Refine(pkgs, sel) => {
            assert_eq!(pkgs.len(), 1);
            assert_eq!(pkgs[0].violation, ViolationId::TravelTime(VisitId(0)));
            assert_eq!(sel, vec![0]);
        },
        _ => panic!("expected a refinement"),
    }
    let p = problem(5, 10);
    let mut occs = vec![occupation(0), occupation(5), occupation(10)];
    let mut touched = vec![VisitId(0), VisitId(1), VisitId(2)];
    match sat_ddd_round(&p, &visits(), &mut occs, &resource_visits(), &conflicts(), &mut touched, &mut tracker, 2, None, &vec![]) {
        RoundOutcome::Final(sol) => assert_eq!(sol, vec![vec![0, 5, 8], vec![10, 14]]),
        _ => panic!("expected the final solution"),
    }
}

#[test]
fn round_stops_when_an_end_leaves_i32() {
    let p = problem(5, i32::MAX - 1);
    let occs = vec![occupation(0), occupation(5), occupation(i32::MAX - 1)];
    assert!(!travel_ends_fit(&p, &visits(), &occs));
    let mut occs = occs;
    let mut touched = vec![VisitId(2)];
    let mut tracker = ViolationAgeTracker::new();
    let r = sat_ddd_round(&p, &visits(), &mut occs, &resource_visits(), &conflicts(), &mut touched, &mut tracker, 1, None, &vec![]);
    assert!(matches!(r, RoundOutcome::TimeOverflow));
}
