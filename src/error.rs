//! Errors of a run.
use vstd::prelude::*;

verus! {

/// What can go wrong in a run.
#[derive(Debug, Clone, PartialEq, Eq)]
pub enum ProcessingError {
    /// Reading the input failed; the message says why.
    Io(String),
    CsvParsing(String),
    InvalidFileExtension,
    ColumnNotFound(String),
    MemoryMapping(String),
    DataProcessing(String),
    ThreadJoin,
    Channel(String),
    Configuration(String),
    EmptyDataset,
    /// The task of the chunk at this position never delivered a result.
    TaskIncomplete(usize),
}

} // verus!
