//! The rules by which the compiler of Dojo projects names what it writes.
//!
//! Compiling itself is the work of the Cairo compiler and of the build
//! tool; what stands here is what this project decides on its own.

use vstd::prelude::*;
use vstd::string::StringExecFns;

verus! {

/// The compiler of Dojo projects.
#[derive(Clone, Copy, Debug)]
pub struct DojoCompiler;

/// The name of the package that holds the core of Dojo.
pub open spec fn core_package() -> Seq<char> {
    "dojo_core"@
}

/// The name of the file that holds the class of a contract: the name of
/// the target, an underscore, the name of the contract, and `.json`.
pub open spec fn artifact_name(target_name: Seq<char>, contract_name: Seq<char>) -> Seq<char> {
    target_name + "_"@ + contract_name + ".json"@
}

impl DojoCompiler {
    /// The kind of target that this compiler builds.
    pub fn target_kind(&self) -> (kind: &'static str)
        ensures
            kind@ == "dojo"@,
    {
        "dojo"
    }

    /// Whether the core package has to be added to the crates of a build:
    /// it has, unless the package that is built is the core package itself.
    pub fn needs_core_crate(&self, package_name: &str) -> (needed: bool)
        ensures
            needed == (package_name@ != core_package()),
    {
        let package = String::from_str(package_name);
        let core = String::from_str("dojo_core");
        !(package == core)
    }

    /// The name of the file that holds the class of a contract.
    pub fn artifact_file_name(&self, target_name: &str, contract_name: &str) -> (name: String)
        ensures
            name@ == artifact_name(target_name@, contract_name@),
    {
        let mut name = String::from_str(target_name);
        name.append("_");
        name.append(contract_name);
        name.append(".json");
        name
    }
}

} // verus!
