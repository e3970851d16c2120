//! TDMS (Technical Data Management Streaming) files.
//!
//! A file is a row of segments. Each declares objects (the file, groups,
//! channels) with properties, and holds raw data of some channels; what a
//! segment leaves out is as it was before. The reader takes the segments in
//! turn and forms the hierarchy of the objects at the end.

pub mod chunk;
pub mod cursor;
pub mod declared;
pub mod dtype;
pub mod error;
pub mod file;
pub mod hierarchy;
pub mod history;
pub mod join;
pub mod laws;
pub mod naming;
pub mod object;
pub mod order;
pub mod path;
pub mod refused;
pub mod segment;
pub mod source;
pub mod splice;
pub mod value;
pub mod whole;
pub mod written;

pub use error::TdmsError;
pub use file::{parse_tdms, TdmsChannel, TdmsFile, TdmsGroup};
pub use source::{load_tdms, tdms_channel_samples, tdms_inspect};
pub use value::{PropertyMap, PropertyValue, Scalar, TdmsTimestamp};
