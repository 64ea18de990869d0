use trainsched::maxsatsolver::{read_model, External, MaxSatError, MaxSatSolver, WCNF};

#[test]
fn wcnf_text_format() {
    let mut w = WCNF::new();
    assert_eq!(w.new_var(), 1);
    assert_eq!(w.new_var(), 2);
    assert_eq!(w.new_var(), 3);
    w.add_clause(None, vec![1, -2]);
    w.add_clause(Some(0), vec![3]);
    w.add_clause(Some(5), vec![-3]);
    assert_eq!(w.clauses.len(), 2);
    assert_eq!(
        w.to_string(),
        "c cnf file for partial weighted maxsat\np wcnf 3 2 6\n6 1 -2 0\n5 -3 0\n"
    );
}

#[test]
fn wcnf_default_is_empty() {
    let w = WCNF::default();
    assert_eq!(w.to_string(), "c cnf file for partial weighted maxsat\np wcnf 0 0 1\n");
}

#[test]
fn external_status_and_vars() {
    let mut e = External::new();
    let a = MaxSatSolver::new_var(&mut e);
    let b = e.new_var();
    assert_eq!((a, b), (1, 2));
    MaxSatSolver::add_clause(&mut e, None, vec![a, b]);
    assert_eq!(e.status(), "External solver vars=2 clauses=1");
}

#[test]
fn at_most_one_pairwise() {
    let mut e = External::new();
    for _ in 0..3 {
        e.new_var();
    }
    e.at_most_one(&[1, 2, 3]);
    let lits: Vec<Vec<isize>> = e.wcnf.clauses.iter().map(|c| c.lits.clone()).collect();
    assert_eq!(lits, vec![vec![-1, -2], vec![-1, -3], vec![-2, -3]]);
    assert_eq!(e.wcnf.n_vars, 3);
}

#[test]
fn at_most_one_splits_large_sets() {
    let mut e = External::new();
    for _ in 0..6 {
        e.new_var();
    }
    e.at_most_one(&[1, 2, 3, 4, 5, 6]);
    // One fresh variable joins the two halves: 6 + 6 pairwise clauses.
    assert_eq!(e.wcnf.n_vars, 7);
    assert_eq!(e.wcnf.clauses.len(), 12);
    assert_eq!(e.wcnf.clauses[0].lits, vec![-1, -2]);
    assert_eq!(e.wcnf.clauses[5].lits, vec![-3, -7]);
    assert_eq!(e.wcnf.clauses[6].lits, vec![-4, -5]);
    assert_eq!(e.wcnf.clauses[11].lits, vec![-6, 7]);
    // Brute force: every assignment of the clauses has at most one of 1..=6.
    for mask in 0u32..(1 << 7) {
        let val = |l: isize| -> bool {
            let v = l.unsigned_abs() - 1;
            let b = mask & (1 << v) != 0;
            if l > 0 { b } else { !b }
        };
        let sat = e.wcnf.clauses.iter().all(|c| c.lits.iter().any(|l| val(*l)));
        let count = (1..=6).filter(|l| val(*l)).count();
        if sat {
            assert!(count <= 1);
        }
    }
}

#[test]
fn exactly_one_adds_the_whole_clause() {
    let mut e = External::new();
    for _ in 0..2 {
        e.new_var();
    }
    e.exactly_one(&[1, 2]);
    let lits: Vec<Vec<isize>> = e.wcnf.clauses.iter().map(|c| c.lits.clone()).collect();
    assert_eq!(lits, vec![vec![1, 2], vec![-1, -2]]);
}

#[test]
fn model_of_the_last_v_line() {
    let out = "c solving\nv 0 1 1\no 3\nv 1 0\ns OPTIMUM FOUND\n";
    assert_eq!(read_model(out), vec![true, false]);
    assert_eq!(read_model("s UNSATISFIABLE\n"), Vec::<bool>::new());
    assert_eq!(read_model("xv 1\n"), Vec::<bool>::new());
    assert_eq!(read_model("v 0101\r\n"), vec![false, true, false, true]);
}

#[test]
fn maxsat_error_variants() {
    assert_ne!(MaxSatError::NoSolution, MaxSatError::Timeout);
}

#[test]
fn wcnf_text_needs_a_hard_weight_in_range() {
    let mut w = WCNF::new();
    assert!(w.text_fits());
    w.add_clause(Some(u32::MAX - 2), vec![1]);
    assert!(w.text_fits());
    w.add_clause(Some(1), vec![-1]);
    assert!(w.text_fits());
    w.add_clause(Some(1), vec![2]);
    assert!(!w.text_fits());
    let mut h = WCNF::new();
    h.add_clause(None, vec![1, 2]);
    assert!(h.text_fits());
}
