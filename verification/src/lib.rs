//! Exact and reproducible geometry kernels for machining simulation.

pub mod arithmetic;
pub mod canonical;
pub mod coverage_laws;
pub mod decimal;
pub mod double;
pub mod double_root;
pub mod error_bounds;
pub mod exactness;
pub mod integer;
pub mod lattice;
pub mod lattice_laws;
pub mod math;
pub mod mesh;
pub mod order;
pub mod precision;
pub mod predicates;
pub mod quadratic_laws;
pub mod refixture;
pub mod refixture_laws;
pub mod remainder;
pub mod root_laws;
pub mod roots;
pub mod rounding;
pub mod selftest;
pub mod single;
pub mod sorting;
pub mod span_laws;
pub mod spans;
pub mod square_root;
pub mod suites;
pub mod sweep;
pub mod text;
pub mod text_laws;

use vstd::prelude::*;

verus! {

} // verus!
