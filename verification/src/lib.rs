//! A single-item batch processor: it accepts one input payload, produces a
//! structured result record describing the outcome, and exposes the pure
//! decisions of the orchestration that wires file I/O around it.

pub mod errors;
pub mod json;
pub mod num;
pub mod orchestrate;
pub mod processor;
pub mod record;
pub mod time;

pub use errors::RunError;
pub use processor::GasOptimizerProcessor;
pub use record::ProcessData;
pub use record::ProcessResult;
pub use processor::ProcessorStats;
pub use orchestrate::RunProduct;
