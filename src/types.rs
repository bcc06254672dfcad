//! Plain data carried between the stages of the pipeline.
use vstd::prelude::*;

verus! {

/// A balanced unit of work: the header, the lines of one or more whole
/// devices joined by `\n`, their number, and the devices it holds.
#[derive(Debug, Clone)]
pub struct CsvChunk {
    /// The data lines joined by `\n`.
    pub data: String,
    /// The header line of the file.
    pub header: String,
    /// The devices whose lines this chunk holds, in order of assignment.
    pub device_ids: Vec<String>,
    /// Number of data lines (excluding the header).
    pub line_count: usize,
}

/// One device and all of its data lines, in file order.
#[derive(Debug, Clone)]
pub struct DeviceEntry {
    /// Device identifier.
    pub device_id: String,
    /// The lines of this device, without the header.
    pub lines: Vec<String>,
}

/// The text held by each string of a sequence.
pub open spec fn string_views(v: Seq<String>) -> Seq<Seq<char>> {
    v.map_values(|s: String| s@)
}

/// Settings of a run.
#[derive(Debug, Clone)]
pub struct ProcessingConfig {
    /// Path to the CSV file.
    pub file_path: String,
    /// Name of the device column (default: "device").
    pub device_column: String,
    /// Number of worker threads or tasks.
    pub num_workers: usize,
    /// Field delimiter (default: '|').
    pub delimiter: char,
}

/// Relies on `num_cpus::get`: the number of logical CPUs, which its
/// documentation promises to be at least one.
#[verifier::external_body]
fn available_cpus() -> (r: usize)
    ensures
        r >= 1,
{
    num_cpus::get()
}

impl Default for ProcessingConfig {
    /// No file, the `device` column, one worker per logical CPU, and `|`.
    fn default() -> (r: ProcessingConfig)
        ensures
            r.file_path@.len() == 0,
            r.device_column@ == seq!['d', 'e', 'v', 'i', 'c', 'e'],
            r.num_workers >= 1,
            r.delimiter == '|',
    {
        let device_column = String::from_str("device");
        proof {
            reveal_strlit("device");
        }
        ProcessingConfig {
            file_path: String::new(),
            device_column,
            num_workers: available_cpus(),
            delimiter: '|',
        }
    }
}

impl DeviceEntry {
    /// The device id and its lines as text.
    pub open spec fn model(self) -> (Seq<char>, Seq<Seq<char>>) {
        (self.device_id@, string_views(self.lines@))
    }
}

} // verus!
