//! Batch analytics over delimited sensor readings: grouping of raw lines by
//! device, load-balanced partitioning, per-chunk row selection and grouping
//! of sensor readings, and the reassembly and merge of per-chunk results.

pub mod aggregation;
pub mod counter;
pub mod data_analysis;
pub mod device_hash;
pub mod error;
pub mod file_mapping;
pub mod parallel_processor;
pub mod partition;
pub mod text;
pub mod types;

pub use aggregation::{aggregate_rows, SensorSeries};
pub use counter::{incrementa, NUM_INCREMENTOS};
pub use data_analysis::{keep_flags, select_rows, ChunkRows, SelectedRow};
pub use device_hash::{build_device_hash_table, DeviceIndex};
pub use error::ProcessingError;
pub use file_mapping::{find_column_index, get_header_columns, validate_csv_extension};
pub use parallel_processor::{collect_by_index, merge_results};
pub use partition::{calculate_load_balance_stats, partition_by_device, LoadBalanceStats};
pub use types::{CsvChunk, DeviceEntry, ProcessingConfig};
