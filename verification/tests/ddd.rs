use trainsched::problem::{Problem, Train, Visit};
use trainsched::ddd::bits::{bits_needed, shifted_bound, usize_bit};
use trainsched::ddd::common::{extract_solution, Occ, VisitId};
use trainsched::ddd::costtree::CostTree;
use trainsched::ddd::lits::{add_bool_clause, BoolLit};
use trainsched::ddd::amo::{add_hybrid_amo, add_pairwise_amo, add_sc_amo};
use trainsched::maxsatsolver::MaxSatSolver;
use trainsched::ddd::refinement::{apply_package, PackageAction};
use trainsched::maxsatsolver::External;
use trainsched::ddd::refinement::{select_packages, RefinementPackage, ViolationAgeTracker, ViolationId};
use trainsched::ddd::settings::{MaxSatDddLadderScSettings, SatDddSettings};
use trainsched::legacy;
use trainsched::export_lp::write_terms;
use trainsched::solvers::SolverError;

#[test]
fn bit_helpers() {
    assert_eq!(bits_needed(0), 1);
    assert_eq!(bits_needed(1), 1);
    assert_eq!(bits_needed(2), 2);
    assert_eq!(bits_needed(255), 8);
    assert_eq!(bits_needed(256), 9);
    assert!(usize_bit(5, 0));
    assert!(!usize_bit(5, 1));
    assert!(usize_bit(5, 2));
    assert_eq!(shifted_bound(13, 2), 3);
}

#[test]
fn resource_violation_names_smaller_visit_first() {
    assert_eq!(ViolationId::resource(VisitId(7), VisitId(3)), ViolationId::Resource(VisitId(3), VisitId(7)));
    assert_eq!(ViolationId::resource(VisitId(2), VisitId(3)), ViolationId::Resource(VisitId(2), VisitId(3)));
}

#[test]
fn age_tracker_keeps_first_iteration() {
    let mut t = ViolationAgeTracker::new();
    let a = ViolationId::TravelTime(VisitId(1));
    let b = ViolationId::resource(VisitId(1), VisitId(2));
    assert_eq!(t.record(a, 4), 4);
    assert_eq!(t.record(a, 9), 4);
    assert_eq!(t.record(b, 9), 9);
    assert_eq!(t.record(b, 12), 9);
}

fn pkg(v: u32, pts: &[(u32, i32)], first_seen: usize) -> RefinementPackage<()> {
    RefinementPackage {
        violation: ViolationId::TravelTime(VisitId(v)),
        planned_points: pts.iter().map(|(a, b)| (VisitId(*a), *b)).collect(),
        first_seen,
        action: (),
    }
}

#[test]
fn package_selection_with_and_without_budget() {
    let packages = vec![pkg(0, &[(0, 1), (0, 2)], 3), pkg(1, &[(1, 5)], 1), pkg(2, &[(2, 1), (2, 2), (2, 3)], 0)];
    assert_eq!(select_packages(&packages, None), vec![0, 1, 2]);
    let small = select_packages(&packages, Some(1));
    assert_eq!(small, vec![1]);
    // Nothing fits a budget of zero: the oldest package is taken.
    assert_eq!(select_packages(&packages, Some(0)), vec![2]);
    assert!(select_packages::<()>(&[], Some(5)).is_empty());
}

#[test]
fn settings_defaults() {
    let s = SatDddSettings::default();
    let t = MaxSatDddLadderScSettings::default();
    let _ = (s.use_precedence_graph, t);
}

#[test]
fn conflict_checks_of_legacy_solvers() {
    let sol = vec![vec![0, 5, 9], vec![5, 8]];
    assert_eq!(legacy::maxsat_ddd::check_conflict(((0, 0), (1, 0)), &sol), Ok(true));
    assert_eq!(legacy::maxsat_ddd::check_conflict(((0, 1), (1, 0)), &sol), Ok(false));
    let times = vec![vec![0i64, 5, 9], vec![4i64, 8]];
    assert_eq!(legacy::idl::check_conflict(((0, 0), (1, 0)), &times), Ok(false));
    assert_eq!(legacy::idl::check_conflict(((0, 1), (1, 0)), &vec![vec![0i64, 9, 12], vec![4i64, 9]]), Ok(true));
    assert_ne!(SolverError::Timeout, SolverError::NoSolution);
}

#[test]
fn lp_terms_are_packed_into_lines() {
    let terms: Vec<String> = vec!["2 x1".into(), "3 x2".into()];
    assert_eq!(write_terms(&terms), vec!["    2 x1 + 3 x2".to_string()]);
    assert!(write_terms(&[]).is_empty());
    let long: Vec<String> = (0..200).map(|i| format!("1 x{}", i)).collect();
    let lines = write_terms(&long);
    assert!(lines.len() > 1);
    assert!(lines[1].starts_with("    + "));
    for l in &lines {
        assert!(l.len() <= 400);
    }
    let joined: String = lines.iter().map(|l| l.trim_start_matches("    + ").trim_start()).collect::<Vec<_>>().join(" + ");
    assert_eq!(joined, long.join(" + "));
}

fn hard_clauses(ext: &External) -> Vec<Vec<isize>> {
    ext.wcnf.clauses.iter().filter(|c| c.weight.is_none()).map(|c| c.lits.clone()).collect()
}

#[test]
fn bool_clauses_drop_constants() {
    let mut ext = External::new();
    add_bool_clause(&mut ext, &[BoolLit::Const(false), BoolLit::Lit(3), BoolLit::Lit(-2)]);
    add_bool_clause(&mut ext, &[BoolLit::Lit(1), BoolLit::Const(true)]);
    add_bool_clause(&mut ext, &[BoolLit::Const(false)]);
    assert_eq!(hard_clauses(&ext), vec![vec![3, -2], Vec::new()]);
    assert_eq!(BoolLit::Lit(4).not(), BoolLit::Lit(-4));
    assert_eq!(BoolLit::Const(true).not(), BoolLit::Const(false));
}

#[test]
fn cost_tree_fills_close_levels_and_jumps_far_ones() {
    let mut ext = External::new();
    let mut tree = CostTree::new();
    let mut notes: Vec<(usize, BoolLit)> = Vec::new();
    let input = ext.new_var();
    tree.add_cost(&mut ext, BoolLit::Lit(input), 3, &mut notes);
    let costs: Vec<usize> = tree.nodes.iter().map(|n| n.cost).collect();
    assert_eq!(costs, vec![1, 2, 3]);
    let parents: Vec<Option<usize>> = tree.nodes.iter().map(|n| n.parent).collect();
    assert_eq!(parents, vec![None, Some(0), Some(1)]);
    assert_eq!(notes, vec![(1, BoolLit::Lit(2)), (1, BoolLit::Lit(3)), (1, BoolLit::Lit(4))]);
    assert_eq!(hard_clauses(&ext), vec![vec![-3, 2], vec![-4, 3], vec![-1, 4]]);

    let input2 = ext.new_var();
    tree.add_cost(&mut ext, BoolLit::Lit(input2), 20, &mut notes);
    assert_eq!(tree.nodes.len(), 4);
    assert_eq!(tree.nodes[3].cost, 20);
    assert_eq!(tree.nodes[3].parent, Some(2));
    assert_eq!(tree.nodes[3].literal, 6);
    assert_eq!(notes[3], (17, BoolLit::Lit(6)));
    let h = hard_clauses(&ext);
    assert_eq!(h[3..].to_vec(), vec![vec![-6, 4], vec![-5, 6]]);

    // an existing level: no new variable, only the input clause
    tree.add_cost(&mut ext, BoolLit::Const(true), 2, &mut notes);
    assert_eq!(tree.nodes.len(), 4);
    assert_eq!(ext.wcnf.n_vars, 6);
    assert_eq!(hard_clauses(&ext).last().unwrap(), &vec![3]);
    // a constant false input adds nothing
    let before = hard_clauses(&ext).len();
    tree.add_cost(&mut ext, BoolLit::Const(false), 2, &mut notes);
    assert_eq!(hard_clauses(&ext).len(), before);
}

fn occupation(earliest: i32) -> Occ {
    Occ {
        cost: vec![BoolLit::Const(true)],
        cost_tree: CostTree::new(),
        delays: vec![(BoolLit::Const(true), earliest), (BoolLit::Const(false), i32::MAX)],
        incumbent_idx: 0,
    }
}

#[test]
fn time_points_are_inserted_in_order() {
    let mut ext = External::new();
    let mut occ = occupation(10);
    assert_eq!(occ.time_point(&mut ext, 10), (BoolLit::Const(true), false));
    assert_eq!(occ.time_point(&mut ext, 20), (BoolLit::Lit(1), true));
    assert!(hard_clauses(&ext).is_empty());
    occ.incumbent_idx = 1;
    assert_eq!(occ.incumbent_time(), 20);
    assert_eq!(occ.time_point(&mut ext, 15), (BoolLit::Lit(2), true));
    assert_eq!(hard_clauses(&ext), vec![vec![-1, 2]]);
    let times: Vec<i32> = occ.delays.iter().map(|d| d.1).collect();
    assert_eq!(times, vec![10, 15, 20, i32::MAX]);
    assert_eq!(occ.incumbent_idx, 2);
    assert_eq!(occ.incumbent_time(), 20);
    assert_eq!(occ.time_point(&mut ext, 20), (BoolLit::Lit(1), false));
    assert_eq!(ext.wcnf.n_vars, 2);
}

#[test]
fn packages_add_time_points_and_clauses() {
    let mut ext = External::new();
    let x = ext.new_var();
    let mut occs = vec![occupation(0), occupation(5)];
    let (mut n_cc, mut n_c, mut n_t) = (0usize, 0usize, 0usize);
    let pkg = RefinementPackage {
        violation: ViolationId::TravelTime(VisitId(1)),
        planned_points: vec![(VisitId(1), 30)],
        first_seen: 0,
        action: PackageAction::TravelTime { t1_in_var: BoolLit::Lit(x), next_visit: VisitId(1), new_t: 30 },
    };
    let added = apply_package(pkg, &mut ext, &mut occs, &mut n_cc, &mut n_c, &mut n_t);
    assert_eq!(added, vec![(VisitId(1), BoolLit::Lit(2), 30)]);
    assert_eq!(n_t, 1);
    assert_eq!(hard_clauses(&ext), vec![vec![-1, 2]]);
    assert_eq!(occs[1].delays.len(), 3);
    assert_eq!(occs[0].delays.len(), 2);

    let pkg = RefinementPackage {
        violation: ViolationId::resource(VisitId(0), VisitId(1)),
        planned_points: vec![(VisitId(0), 40), (VisitId(1), 30)],
        first_seen: 1,
        action: PackageAction::Resource {
            visit1: VisitId(0),
            visit2: VisitId(1),
            tp_for_v2: 30,
            tp_for_v1: 40,
            t1_out_lit: BoolLit::Lit(x),
            t2_out_lit: BoolLit::Const(true),
        },
    };
    let added = apply_package(pkg, &mut ext, &mut occs, &mut n_cc, &mut n_c, &mut n_t);
    assert_eq!(added, vec![(VisitId(0), BoolLit::Lit(3), 40)]);
    assert_eq!((n_cc, n_c, n_t), (1, 1, 1));
    assert_eq!(hard_clauses(&ext).last().unwrap(), &vec![-1, 3, 2]);
}

#[test]
fn solution_from_current_time_points() {
    let p = Problem {
        name: "p".to_string(),
        trains: vec![
            Train { visits: vec![Visit { resource_id: 1, earliest: 0, aimed: None, travel_time: 10 }, Visit { resource_id: 0, earliest: 10, aimed: Some(20), travel_time: 3 }] },
            Train { visits: vec![Visit { resource_id: 1, earliest: 5, aimed: None, travel_time: 10 }] },
        ],
        conflicts: vec![(1, 1)],
    };
    let mut ext = External::new();
    let mut occs = vec![occupation(0), occupation(10), occupation(5)];
    occs[1].time_point(&mut ext, 12);
    occs[1].incumbent_idx = 1;
    assert_eq!(extract_solution(&p, &occs), vec![vec![0, 12, 15], vec![5, 15]]);
}

fn clauses_of(ext: &External) -> Vec<Vec<isize>> {
    ext.wcnf.clauses.iter().map(|c| c.lits.clone()).collect()
}

fn satisfied(clauses: &[Vec<isize>], value: &dyn Fn(isize) -> bool) -> bool {
    clauses.iter().all(|c| c.iter().any(|&l| if l > 0 { value(l) } else { !value(-l) }))
}

#[test]
fn sequential_counter_clauses() {
    let mut ext = External::new();
    for _ in 0..4 {
        ext.new_var();
    }
    let lits: Vec<BoolLit> = (1..=4).map(BoolLit::Lit).collect();
    add_sc_amo(&mut ext, &lits);
    // Three counter variables, two first clauses, four for each middle
    // literal and one last clause.
    assert_eq!(ext.wcnf.n_vars, 7);
    let cs = clauses_of(&ext);
    assert_eq!(cs.len(), 11);
    assert_eq!(cs[0], vec![-1, 5]);
    assert_eq!(cs[1], vec![1, -5]);
    assert_eq!(cs[2..6].to_vec(), vec![vec![-2, 6], vec![-5, 6], vec![2, 5, -6], vec![-2, -5]]);
    assert_eq!(cs[10], vec![-4, -7]);
    // Exactly the assignments with at most one literal true extend to
    // models of the clauses.
    for x in 0u32..16 {
        let ones = x.count_ones();
        let extends = (0u32..8).any(|p| {
            satisfied(&cs, &|v| if v <= 4 { x >> (v - 1) & 1 == 1 } else { p >> (v - 5) & 1 == 1 })
        });
        assert_eq!(extends, ones <= 1, "assignment {:b}", x);
    }
}

#[test]
fn at_most_one_encodings_agree() {
    let mut small = External::new();
    for _ in 0..3 {
        small.new_var();
    }
    let lits = vec![BoolLit::Lit(1), BoolLit::Lit(-2), BoolLit::Lit(3)];
    add_hybrid_amo(&mut small, &lits, true);
    // Up to the pairwise limit the clauses are pairwise, with no new variable.
    assert_eq!(small.wcnf.n_vars, 3);
    assert_eq!(clauses_of(&small), vec![vec![-1, 2], vec![-1, -3], vec![2, -3]]);
    // Constants: a constant false literal never counts, so its pair needs
    // no clause; a constant true one excludes the others.
    let mut c = External::new();
    c.new_var();
    add_pairwise_amo(&mut c, &[BoolLit::Const(false), BoolLit::Lit(1)]);
    assert_eq!(clauses_of(&c).len(), 0);
    let mut d = External::new();
    d.new_var();
    add_pairwise_amo(&mut d, &[BoolLit::Const(true), BoolLit::Lit(1)]);
    assert_eq!(clauses_of(&d), vec![vec![-1]]);
    // Two literals: one clause.
    let mut two = External::new();
    two.new_var();
    two.new_var();
    add_sc_amo(&mut two, &[BoolLit::Lit(1), BoolLit::Lit(2)]);
    assert_eq!(clauses_of(&two), vec![vec![-1, -2]]);
}
