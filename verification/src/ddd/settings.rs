use vstd::prelude::*;

verus! {

/// Which of the DDD solver families to run.
#[derive(Clone, Copy, Debug)]
pub enum SolveMode {
    MaxSatRc2,
    Sat,
}

/// How the objective bound is imposed on the SAT solver.
#[derive(Clone, Copy, Debug)]
pub enum SatBoundMode {
    AddClauses,
    Assumptions,
}

/// How precedences between visits are encoded.
#[derive(Clone, Copy, Debug, PartialEq, Eq)]
pub enum SatPrecEncoding {
    Plain,
    Sc,
}

/// How the SAT solver searches for the optimum.
#[derive(Clone, Copy, Debug, PartialEq, Eq)]
pub enum SatSearchMode {
    UbSearch,
    Invalid,
}

/// How the objective is encoded for the SAT-based DDD solvers.
#[derive(Clone, Copy, Debug, PartialEq, Eq)]
pub enum SatObjectiveEncoding {
    Scpb,
    IncrementalTotalizer,
    BitTotalizer,
}

/// Options of the SAT-based DDD solvers.
#[derive(Clone, Copy, Debug)]
pub struct SatDddSettings {
    /// Tighten per-visit earliest times by chain propagation before building
    /// the formula.
    pub use_precedence_graph: bool,
    /// Allocate the variables of every cost-step threshold time up front.
    pub prealloc_cost_thresholds: bool,
    /// Add the travel-time precedence rows of the earliest time points up front.
    pub seed_precedence_from_earliest: bool,
    /// Add conflict clauses for visit pairs whose earliest occupations overlap
    /// up front.
    pub seed_resource_conflicts: bool,
    /// Use the sequential-counter encoding for large at-most-one constraints.
    pub use_sc_amo: bool,
}

impl Default for SatDddSettings {
    fn default() -> (r: Self)
        ensures
            r.use_precedence_graph,
            !r.prealloc_cost_thresholds,
            !r.seed_precedence_from_earliest,
            !r.seed_resource_conflicts,
            r.use_sc_amo,
    {
        SatDddSettings {
            use_precedence_graph: true,
            prealloc_cost_thresholds: false,
            seed_precedence_from_earliest: false,
            seed_resource_conflicts: false,
            use_sc_amo: true,
        }
    }
}

/// Options of the MaxSAT ladder solver with sequential-counter constraints.
#[derive(Clone, Copy, Debug)]
pub struct MaxSatDddLadderScSettings {
    pub use_precedence_graph: bool,
    pub use_sc_amo: bool,
    pub use_touched_clique_amo: bool,
    /// Expand long travel-time precedence chains into per-step clauses.
    pub use_eager_chain_expansion: bool,
    /// Seed fixed precedence rows from earliest time points.
    pub seed_sc_from_earliest: bool,
    /// Allocate the variables of the cost-threshold time points up front.
    pub prealloc_cost_thresholds: bool,
}

impl Default for MaxSatDddLadderScSettings {
    fn default() -> (r: Self)
        ensures
            r.use_precedence_graph,
            !r.use_eager_chain_expansion,
            r.use_sc_amo,
            r.use_touched_clique_amo,
            !r.seed_sc_from_earliest,
            !r.prealloc_cost_thresholds,
    {
        MaxSatDddLadderScSettings {
            use_precedence_graph: true,
            use_eager_chain_expansion: false,
            use_sc_amo: true,
            use_touched_clique_amo: true,
            seed_sc_from_earliest: false,
            prealloc_cost_thresholds: false,
        }
    }
}

/// At-most-one constraints up to this size are encoded pairwise.
pub const PAIRWISE_AMO_MAX_SIZE: usize = 5;

} // verus!
