use vstd::prelude::*;

pub mod args;
pub mod context;
pub mod errors;
pub mod generator;
pub mod runner;
pub mod text;

pub use args::Args;
pub use args::Language;
pub use context::ContextState;
pub use errors::Error;
pub use errors::SpecificationError;
pub use generator::AtomModel;
pub use generator::Numeric;
pub use generator::NumericModel;
pub use generator::Specification;
pub use generator::SpecificationAtom;
pub use generator::Store;
pub use generator::sample_integer;
pub use generator::random_permutation;
pub use runner::Runner;
pub use runner::Status;
pub use runner::compare_status;
pub use runner::interactive_status;
pub use runner::single_status;
pub use runner::tokens_equal;
pub use runner::verifier_input;
pub use runner::verify_status;

verus! {

} // verus!
