//! Rolling pk-pk of a field log that comes in blocks.

use vstd::prelude::*;

pub mod config;
pub mod kernel;
pub mod processor;
pub mod streaming;

pub use config::{FilterKind, FilterRoute, ProcessingConfig};
pub use kernel::{processing_kernel, ProcessingResults, Streams};
pub use processor::{DataBlock, Handout, Processor};

verus! {

} // verus!
