pub mod amo;
pub mod totalizer;
pub mod bits;
pub mod common;
pub mod costtree;
pub mod lits;
pub mod refinement;
pub mod settings;
pub mod rounds;
