//! Program dependence graphs over a machine integer model.
pub mod num;
pub mod flow;
pub mod pdg;
pub mod export;
