//! Readers of text files: delimited tables, DAT scans, and the tables that an
//! earlier run has written. Numbers stay text here; times are nanoseconds
//! since 1970-01-01.

use vstd::prelude::*;

pub mod blanks;
pub mod dat;
pub mod error;
pub mod headers;
pub mod processed;
pub mod tabular;
pub mod written;

pub use dat::{read_dat, time_grid, DatFile, DatRow};
pub use error::ReadError;
pub use headers::{inspect_csv_headers, inspect_dat_headers, list_headers};
pub use processed::{read_processed_csv, ProcessedCsv};
pub use tabular::{read_csv, read_tabular, LoadedFile};

verus! {

} // verus!
