pub mod backlinks;
pub mod budget;
pub mod graph_laws;
pub mod insertion;
pub mod options;
pub mod placement;
pub mod sampling;
pub mod diag;
