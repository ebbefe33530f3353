//! Core of a log filter and viewer: frames delimiter-separated byte records
//! out of seekable sources (forward or backward), merges several sources into
//! one time-ordered stream, and filters by time window, severity and
//! substring.

pub mod cli;
pub mod date_time;
pub mod direction;
pub mod error;
pub mod filtering;
pub mod formatting;
pub mod log_entry;
pub mod log_entry_reader;
pub mod log_entry_reader_mux;
pub mod rev_reader;
pub mod source;
pub mod stream;
