//! Core of the QDC field-log analyser.
#![allow(unused_imports)]
use vstd::prelude::*;

pub mod bits;
pub mod calendar;
pub mod dates;
pub mod decimation;
pub mod filter;
pub mod filter_design;
pub mod lex;
pub mod processing;
pub mod readers;
pub mod rolling;
pub mod scan;
pub mod slices;
pub mod tdms;
pub mod text;

verus! {

} // verus!
