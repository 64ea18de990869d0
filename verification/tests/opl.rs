use trainsched::export_opl::{write_opl_dat, write_opl_mod};
use trainsched::problem::{DelayCostType, Problem, Train, Visit};

fn visit(resource_id: usize, earliest: i32, aimed: Option<i32>, travel_time: i32) -> Visit {
    Visit { resource_id, earliest, aimed, travel_time }
}

fn two_trains() -> Problem {
    Problem {
        name: "p".to_string(),
        trains: vec![
            Train { visits: vec![visit(1, 0, None, 10), visit(0, 10, Some(20), 0)] },
            Train { visits: vec![visit(1, 5, None, 10), visit(0, 15, None, 0)] },
        ],
        conflicts: vec![(1, 1)],
    }
}

#[test]
fn opl_data_text() {
    let text = write_opl_dat(&two_trains());
    let expected = "// TRP instance data, exported by export_opl.rs\n\nnVisits = 4;\ntravelTime = [10, 0, 10, 0];\nearliest = [0, 10, 5, 15];\naimed = [0, 20, 0, 0];\n\nVisitsWithAimed = {2};\n\n// Precedence within train: visit i \u{2192} visit i+1\nPrecArcs = {<1, 2>, <3, 4>};\n\n// Disjunctive resource groups (one noOverlap each)\nnResourceGroups = 1;\nVisitsOnResource = [\n  {1, 3}\n];\n";
    assert_eq!(text, expected);
}

#[test]
fn opl_data_wraps_long_arrays_and_lists_groups() {
    let visits: Vec<Visit> = (0..22).map(|i| visit(i % 2, i as i32, None, 1)).collect();
    let p = Problem { name: "q".to_string(), trains: vec![Train { visits }], conflicts: vec![(0, 0), (1, 1)] };
    let text = write_opl_dat(&p);
    assert!(text.contains("travelTime = [1, 1, 1, 1, 1, 1, 1, 1, 1, 1, 1, 1, 1, 1, 1, 1, 1, 1, 1, 1, \n  1, 1];\n"));
    assert!(text.contains("VisitsWithAimed = {};\n"));
    assert!(text.contains("nResourceGroups = 2;\nVisitsOnResource = [\n  {1, 3, 5, 7, 9, 11, 13, 15, 17, 19, 21},\n  {2, 4, 6, 8, 10, 12, 14, 16, 18, 20, 22}\n];\n"));
}

#[test]
fn opl_model_text() {
    let lines = write_opl_mod(DelayCostType::FiniteSteps123, 120, 4);
    assert_eq!(lines[0], "// TRP CP Model, exported by export_opl.rs");
    assert_eq!(lines[1], "// Cost type: FiniteSteps123");
    assert_eq!(lines[7], "  cp.param.Workers = 4;");
    assert_eq!(lines[8], "  cp.param.TimeLimit = 120;");
    assert_eq!(lines[9], "  cp.param.OptimalityTolerance = 0.001;");
    assert_eq!(lines[21], "int aimed[Visits] = ...;  // aimed time (c\u{f3} th\u{1ec3} \u{e2}m), 0 n\u{1ebf}u kh\u{f4}ng t\u{ed}nh cost");
    assert!(lines.contains(&"// Cost per visit (max cost = 3)".to_string()));
    assert!(lines.contains(&"dvar int cost[i in VisitsWithAimed] in 0..3;".to_string()));
    let at = lines.iter().position(|l| l == "  // Cost binding (linear/implication theo cost type)").unwrap();
    assert_eq!(
        lines[at + 1..at + 7].to_vec(),
        vec![
            "  forall(i in VisitsWithAimed)",
            "    (delay[i] > 360) => (cost[i] >= 3);",
            "  forall(i in VisitsWithAimed)",
            "    (delay[i] > 180) => (cost[i] >= 2);",
            "  forall(i in VisitsWithAimed)",
            "    (delay[i] > 0) => (cost[i] >= 1);",
        ]
    );
    assert_eq!(lines.last().unwrap(), "}");
    let steps = write_opl_mod(DelayCostType::InfiniteSteps60, 30, 2);
    assert!(steps.contains(&"// Cost per visit (max cost = 721)".to_string()));
    assert!(steps.contains(&"    cost[i] * 60 >= delay[i];".to_string()));
    let cont = write_opl_mod(DelayCostType::Continuous, 30, 2);
    assert!(cont.contains(&"    cost[i] >= delay[i];".to_string()));
    assert!(cont.contains(&"// Cost per visit (max cost = 43200)".to_string()));
}
