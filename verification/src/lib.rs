//! An append-only, timestamp-partitioned columnar store: schemas with
//! fixed-stride columns, interned symbol dictionaries, growable column file
//! images, an ordered row writer, and a range-pruned partition reader, with
//! the query-request plumbing that drives them.
mod httpmsg;
mod paths;
mod query;
mod read;
mod schema;
mod table;
mod timeparts;
mod write;

pub use httpmsg::{
    find_header, fmt_error, fmt_error_line, fmt_stack_trace, name_eq_ignore_case,
    stringify_header, u64_to_dec, StackFrame,
};
pub use paths::{get_col_path, get_data_path, get_meta_path, get_partition_dir};
pub use query::{
    dispatch_outcome, guess_query_lang, parse_i64_dec, resolve_lang, string_to_nanoseconds,
    validate_scan_args, Query, QueryLang, ScanStats, ScanStep, Source,
};
pub use read::{binary_search_seek, find_ts, lemma_scan_exact_range, PartitionColumn, PartitionIterator};
pub use schema::{lemma_intern_resolve, Column, ColumnType, Schema, SymbolDict, SymbolError};
pub use table::{ColumnFile, MinMax, Partition, Table, TickError};
pub use timeparts::{is_leap, partition_max_ts, partition_min_ts};
pub use write::DEFAULT_ROWS;
