use trainsched::cli::{is_likely_oom_panic, parse_cost_type, parse_delay_cost_type, parse_sat_objective_encoding};
use trainsched::ddd::settings::SatObjectiveEncoding;
use trainsched::problem::DelayCostType;

#[test]
fn objective_alias_infsteps123() {
    assert!(matches!(parse_delay_cost_type("infsteps123"), Some(DelayCostType::InfiniteSteps180)));
}

#[test]
fn delay_cost_names_ignore_case() {
    assert!(matches!(parse_delay_cost_type("FinSteps123"), Some(DelayCostType::FiniteSteps123)));
    assert!(matches!(parse_delay_cost_type("cont"), Some(DelayCostType::Continuous)));
    assert!(matches!(parse_delay_cost_type("finsteps1_3min"), Some(DelayCostType::FiniteSteps1_3Min)));
    assert!(parse_delay_cost_type("steps").is_none());
}

#[test]
fn objective_encoding_names() {
    assert_eq!(parse_sat_objective_encoding("NSC"), Some(SatObjectiveEncoding::Scpb));
    assert_eq!(parse_sat_objective_encoding("inc_totalizer"), Some(SatObjectiveEncoding::IncrementalTotalizer));
    assert_eq!(parse_sat_objective_encoding("binary"), Some(SatObjectiveEncoding::BitTotalizer));
    assert_eq!(parse_sat_objective_encoding("sat"), None);
}

#[test]
fn oom_messages() {
    assert!(!is_likely_oom_panic(None));
    assert!(!is_likely_oom_panic(Some("index out of bounds")));
    assert!(is_likely_oom_panic(Some("Glucose reserve failed: OutOfMemory")));
    assert!(is_likely_oom_panic(Some("memory allocation of 8 bytes failed")));
}

#[test]
fn export_cost_type_names() {
    assert!(matches!(parse_cost_type("FinSteps123"), Some(DelayCostType::FiniteSteps123)));
    assert!(matches!(parse_cost_type("INFSTEPS123"), Some(DelayCostType::InfiniteSteps180)));
    assert!(matches!(parse_cost_type("cont"), Some(DelayCostType::Continuous)));
    assert!(matches!(parse_cost_type("finsteps1_3min"), Some(DelayCostType::FiniteSteps1_3Min)));
    assert!(parse_cost_type("steps").is_none());
    assert!(parse_cost_type("").is_none());
}
