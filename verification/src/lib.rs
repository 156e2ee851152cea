//! Topological coverage analysis of document-parser feature combinations.

pub mod feature;
pub mod gf2;
pub mod union_find;
pub mod complex;
pub mod coverage;
pub mod feature_space;
pub mod report;
pub mod persistence;
pub mod rules;
pub mod probes;
pub mod sorted;
pub mod chain;
pub mod graph;
pub mod euler;
pub mod subsets;

pub use feature::DocumentFeature;
pub use feature_space::DocumentFeatureSpace;
pub use coverage::{CoverageProbe, DocumentSignature, ProbeResult};
pub use report::CoverageReport;
pub use negative_space_testing as nst;
