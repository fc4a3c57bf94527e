use vstd::prelude::*;

verus! {

/// Every failure the host can surface for a run.
#[derive(Debug, Clone, PartialEq, Eq)]
pub enum HostError {
    /// A raw module reference is not a well-formed path or URL.
    InvalidSpecifier { raw: String },
    /// The loader could not produce a module's source.
    LoadError { specifier: String, cause: String },
    /// Graph construction failed on the named module.
    GraphError { specifier: String, cause: String },
    /// A named import is absent from the dependency's export list.
    LinkError { specifier: String, missing_export: String },
    /// A module body threw, or depends on one that did.
    EvaluationError { specifier: String, cause: String },
    /// No work is left but the entry module never settled.
    EventLoopStalled,
    /// The whole run was cancelled.
    Cancelled,
}

/// The process exit status for a run's result: 0 on success, 1 on any error.
pub fn exit_code<T>(result: &Result<T, HostError>) -> (code: i32)
    ensures
        code == (if result is Ok { 0i32 } else { 1i32 }),
{
    match result {
        Ok(_) => 0,
        Err(_) => 1,
    }
}

} // verus!
