//! The pure decisions of the orchestration: input resolution, the error for
//! an unreadable path, and the processing step between the read and the
//! optional write. The reads and writes themselves belong to the host.

use vstd::prelude::*;
use crate::errors::RunError;
use crate::json::json_chars;
use crate::json::serializable;
use crate::json::to_json;
use crate::processor::GasOptimizerProcessor;
use crate::record::ProcessResult;
use crate::record::consistent_model;
use crate::record::lemma_message_plain;
use crate::time::lemma_rfc3339_plain;

verus! {

/// What one run computes once the input has been read: the record of the
/// single processing step, and, when an output sink was named, the canonical
/// text to persist there.
pub struct RunProduct {
    /// The record describing the one processed item.
    pub record: ProcessResult,
    /// The serialized record, present exactly when an output sink was named.
    pub serialized: Option<String>,
}

/// Resolves the input source: without one the run fails at once with a
/// configuration error, touching nothing else; with one the path is handed
/// on to the reader.
pub fn resolve_input(input: Option<String>) -> (r: Result<String, RunError>)
    ensures
        input is None ==> r == Err::<String, RunError>(RunError::ConfigurationError),
        input matches Some(path) ==> r == Ok::<String, RunError>(path),
{
    match input {
        Some(path) => Ok(path),
        None => Err(RunError::ConfigurationError),
    }
}

/// The error a run surfaces when the input path cannot be read: it carries
/// the offending path for diagnostics.
pub fn read_error(path: String) -> (e: RunError)
    ensures
        e == (RunError::IOReadError { path }),
{
    RunError::IOReadError { path }
}

/// The computation of one run after the input has been read: processes the
/// contents exactly once on a fresh processor, and, when an output sink was
/// named, serializes the record to its canonical text. This step cannot
/// fail: the record of the first processed item always serializes.
pub fn run_processing(verbose: bool, contents: &str, want_output: bool) -> (out: RunProduct)
    ensures
        ({
            let m = out.record@;
            &&& m.success == true
            &&& m.data matches Some(d) && d.length == contents@.len() && d.item_number == 1
            &&& consistent_model(m)
            &&& serializable(m)
            &&& (want_output ==> (out.serialized matches Some(text) && text@ == json_chars(m)))
            &&& (!want_output ==> out.serialized is None)
        }),
{
    let mut processor = GasOptimizerProcessor::new(verbose);
    let record = match processor.process(contents) {
        Ok(record) => record,
        Err(_) => {
            proof {
                assert(false);
            }
            unreached()
        },
    };
    proof {
        lemma_message_plain(1);
        lemma_rfc3339_plain(record@.data->Some_0.processed_at);
    }
    if want_output {
        let text = match to_json(&record) {
            Ok(text) => text,
            Err(_) => {
                proof {
                    assert(false);
                }
                unreached()
            },
        };
        RunProduct { record, serialized: Some(text) }
    } else {
        RunProduct { record, serialized: None }
    }
}

} // verus!
