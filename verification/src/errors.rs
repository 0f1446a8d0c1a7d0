//! The closed set of failures that a run can surface.

use vstd::prelude::*;

verus! {

/// Every way an invocation can fail, as a closed enumeration so that callers
/// can match on the category instead of inspecting opaque messages.
#[derive(Debug, PartialEq, Eq)]
pub enum RunError {
    /// No input source was supplied. Fatal to the run.
    ConfigurationError,
    /// The input path could not be read. Fatal; carries the offending path.
    IOReadError { path: String },
    /// The record could not be serialized or persisted. Non-fatal: the run
    /// still reports success, since processing itself completed.
    IOWriteError,
    /// Reserved for domain-specific processing failures; unused today, since
    /// processing is total over its input domain.
    ProcessingError,
}

} // verus!
