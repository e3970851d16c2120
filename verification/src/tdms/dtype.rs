//! Data type codes of the file format.

use vstd::prelude::*;

verus! {

pub const VOID: u32 = 0;

pub const I8: u32 = 1;

pub const I16: u32 = 2;

pub const I32: u32 = 3;

pub const I64: u32 = 4;

pub const U8: u32 = 5;

pub const U16: u32 = 6;

pub const U32: u32 = 7;

pub const U64: u32 = 8;

pub const F32: u32 = 9;

pub const F64: u32 = 10;

pub const STRING: u32 = 0x20;

pub const BOOL: u32 = 0x21;

pub const TIMESTAMP: u32 = 0x44;

} // verus!
