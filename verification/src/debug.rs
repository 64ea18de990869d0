use vstd::prelude::*;

verus! {

/// A snapshot of the solver for visualisation: the iteration, the current
/// candidate solution and what the solver did to it.
#[derive(Debug)]
pub struct DebugInfo {
    pub iteration: usize,
    pub solution: Vec<Vec<i32>>,
    pub actions: Vec<SolverAction>,
}

/// The occupation of a resource by one visit of a train.
#[derive(Debug)]
pub struct ResourceInterval {
    pub train_idx: usize,
    pub visit_idx: usize,
    pub resource_idx: usize,
    pub time_in: i32,
    pub time_out: i32,
}

/// A refinement step of the solver.
#[derive(Debug)]
pub enum SolverAction {
    TravelTimeConflict(ResourceInterval),
    ResourceConflict(ResourceInterval, ResourceInterval),
    Core(usize),
}

} // verus!
