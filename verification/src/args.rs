use vstd::prelude::*;

verus! {

/// The toolchain that built the target programs, which decides how they are
/// built and where their executables are found.
#[derive(Clone, Copy, Debug, PartialEq, Eq, Structural)]
pub enum Language {
    Rust,
    RustDebug,
    Cpp,
    CppSanitize,
}

/// The startup configuration: the toolchain, the program under test, the
/// specification source, the generation backend, and at most one oracle
/// counterpart program.
pub struct Args {
    pub language: Language,
    pub name: String,
    pub specification: String,
    pub generate: bool,
    pub interactive: Option<String>,
    pub compare: Option<String>,
    pub verify: Option<String>,
}

} // verus!
